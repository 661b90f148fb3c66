use std::collections::BTreeSet;

use fuckport::cli::{nothing_picked, Cli};
use fuckport::interactive::{format_record, menu_items, picker_needed, selected_pids, truncate};
use fuckport::process::ProcessRecord;

fn record(pid: u32, name: &str, cmd: &str, ports: &[u16]) -> ProcessRecord {
    ProcessRecord {
        pid,
        name: name.to_string(),
        cmd: cmd.to_string(),
        ports: ports.iter().copied().collect(),
    }
}

#[test]
fn truncate_cuts_with_a_tilde() {
    assert_eq!(truncate("abcdef", 10), "abcdef");
    assert_eq!(truncate("abcdef", 6), "abcdef");
    assert_eq!(truncate("abcdef", 4), "abc~");
    assert_eq!(truncate("abcdef", 2), "a~");
    assert_eq!(truncate("abcdef", 1), "a");
    assert_eq!(truncate("abcdef", 0), "");
    assert_eq!(truncate("", 3), "");
    assert_eq!(truncate("héllo wörld", 5), "héll~");
}

#[test]
fn format_record_lays_out_columns() {
    let r = record(1234, "node", "node server.js", &[8080, 3000]);
    assert_eq!(format_record(&r, false), format!("{:<7} {:<24} {}", 1234, "node", ":3000,:8080"));
    assert_eq!(
        format_record(&r, true),
        format!("{:<7} {:<24} {:<14} {}", 1234, "node", ":3000,:8080", "node server.js")
    );
    assert_eq!(format_record(&r, false), "1234    node                     :3000,:8080");
}

#[test]
fn format_record_without_ports_or_command() {
    let r = record(7, "a-very-long-process-name-indeed", "", &[]);
    assert_eq!(format_record(&r, true), format!("{:<7} {:<24} {}", 7, "a-very-long-process-nam~", "-"));
    assert_eq!(format_record(&r, false), format!("{:<7} {:<24} {}", 7, "a-very-long-process-nam~", "-"));
    let wide = record(4294967295, "x", "cmd", &[1, 65535]);
    assert_eq!(
        format_record(&wide, true),
        format!("{:<7} {:<24} {:<14} {}", 4294967295u32, "x", ":1,:65535", "cmd")
    );
}

#[test]
fn menu_has_one_line_per_record() {
    let records = vec![record(1, "a", "", &[]), record(2, "b", "b --x", &[22])];
    let items = menu_items(&records, true);
    assert_eq!(items.len(), 2);
    assert_eq!(items[0], format_record(&records[0], true));
    assert_eq!(items[1], format_record(&records[1], true));
}

#[test]
fn selection_maps_to_pids() {
    let records = vec![record(5, "a", "", &[]), record(9, "b", "", &[]), record(7, "c", "", &[])];
    assert!(selected_pids(&records, None).is_empty());
    assert!(selected_pids(&records, Some(vec![])).is_empty());
    assert_eq!(selected_pids(&records, Some(vec![2, 0])), [5u32, 7].into_iter().collect::<BTreeSet<u32>>());
    assert_eq!(selected_pids(&records, Some(vec![1, 1])), [9u32].into_iter().collect::<BTreeSet<u32>>());
}

#[test]
fn interactive_mode_and_options() {
    let mut cli = Cli {
        targets: vec![],
        force: true,
        case_sensitive: false,
        silent: false,
        verbose: false,
        interactive: false,
        force_after_timeout: 1500,
        wait_for_exit: 5000,
    };
    assert!(cli.interactive_mode());
    cli.targets.push("node".to_string());
    assert!(!cli.interactive_mode());
    cli.interactive = true;
    assert!(cli.interactive_mode());
    let options = cli.kill_options();
    assert!(options.force);
    assert!(!options.silent);
    assert_eq!(options.force_after_timeout, 1500);
    assert_eq!(options.wait_for_exit, 5000);
    assert!(nothing_picked(true, &BTreeSet::new()));
    assert!(!nothing_picked(false, &BTreeSet::new()));
    assert!(!nothing_picked(true, &[1u32].into_iter().collect()));
}

#[test]
fn picker_only_opens_with_processes() {
    assert!(!picker_needed(&vec![]));
    assert!(picker_needed(&vec![record(1, "a", "", &[])]));
}
