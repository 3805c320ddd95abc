use three_octave::processes::{sort_by_folded_name, ProcessInfo};

fn procs(names: &[&str]) -> Vec<ProcessInfo> {
    names.iter().enumerate().map(|(i, n)| ProcessInfo { pid: i as u32 + 100, name: n.to_string() }).collect()
}

fn shown(v: &[ProcessInfo]) -> Vec<(u32, String)> {
    v.iter().map(|p| (p.pid, p.name.clone())).collect()
}

#[test]
fn processes_are_ordered_ignoring_case() {
    let sorted = sort_by_folded_name(procs(&["b", "A", "a", "C"]));
    assert_eq!(
        shown(&sorted),
        vec![(101, "A".to_string()), (102, "a".to_string()), (100, "b".to_string()), (103, "C".to_string())]
    );
}

#[test]
fn process_names_order_by_prefix_and_code_point() {
    let sorted = sort_by_folded_name(procs(&["zeta.exe", "Explorer.EXE", "explorer", "", "Écran", "chrome"]));
    let names: Vec<String> = sorted.iter().map(|p| p.name.clone()).collect();
    assert_eq!(names, vec!["", "chrome", "explorer", "Explorer.EXE", "zeta.exe", "Écran"]);
}

#[test]
fn empty_process_list() {
    assert!(sort_by_folded_name(Vec::new()).is_empty());
}
