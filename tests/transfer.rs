use photo_transfer::collect::{compatible_files_in_path, Entry};
use photo_transfer::transfer::{plan_transfers, AppState};

fn file(path: &str) -> Entry {
    Entry::File { path: path.to_string() }
}

#[test]
fn fresh_state_points_at_current_directory() {
    let s = AppState::new();
    assert_eq!(s.output_loc, "./");
    assert!(s.transferred_files.is_empty());
    let d = AppState::default();
    assert_eq!(d.output_loc, "./");
    assert!(d.transferred_files.is_empty());
}

#[test]
fn changing_output_keeps_the_log() {
    let mut s = AppState::new();
    s.transferred_files.push("a.jpg".to_string());
    s.set_output_loc("/out".to_string());
    assert_eq!(s.output_loc, "/out");
    assert_eq!(s.transferred_files, vec!["a.jpg"]);
}

#[test]
fn plan_uses_base_name_under_output() {
    let files = vec!["/in/sub/a.jpg".to_string()];
    let plan = plan_transfers(&files, "/out");
    assert_eq!(plan.jobs.len(), 1);
    assert_eq!(plan.jobs[0].source, "/in/sub/a.jpg");
    assert_eq!(plan.jobs[0].name, "a.jpg");
    assert_eq!(plan.jobs[0].destination, "/out/a.jpg");
    assert!(plan.unnamed.is_empty());
}

#[test]
fn file_without_base_name_is_set_aside() {
    let files = vec!["/in/a.jpg".to_string(), "/in/..".to_string()];
    let plan = plan_transfers(&files, "/out");
    assert_eq!(plan.jobs.len(), 1);
    assert_eq!(plan.unnamed, vec!["/in/.."]);
}

#[test]
fn transfer_copies_and_logs_accepted_files_only() {
    let root = Entry::Dir {
        path: "/in".to_string(),
        entries: vec![file("/in/a.jpg"), file("/in/b.cr2"), file("/in/c.txt")],
    };
    let mut s = AppState::new();
    s.set_output_loc("/out".to_string());
    let collected = compatible_files_in_path(&root);
    let plan = plan_transfers(&collected.files, &s.output_loc);
    let dests: Vec<&str> = plan.jobs.iter().map(|j| j.destination.as_str()).collect();
    assert_eq!(dests, vec!["/out/a.jpg", "/out/b.cr2"]);
    for job in plan.jobs.iter() {
        s.record_copy(job, true);
    }
    assert_eq!(s.transferred_files, vec!["a.jpg", "b.cr2"]);
}

#[test]
fn same_name_twice_is_copied_to_one_place_and_logged_twice() {
    let files = vec!["/d1/x.jpg".to_string(), "/d2/x.jpg".to_string()];
    let mut s = AppState::new();
    s.set_output_loc("/out".to_string());
    let plan = plan_transfers(&files, &s.output_loc);
    assert_eq!(plan.jobs.len(), 2);
    assert_eq!(plan.jobs[0].destination, plan.jobs[1].destination);
    assert_eq!(plan.jobs[1].source, "/d2/x.jpg");
    for job in plan.jobs.iter() {
        s.record_copy(job, true);
    }
    assert_eq!(s.transferred_files, vec!["x.jpg", "x.jpg"]);
}

#[test]
fn failed_copy_is_not_logged_and_the_rest_go_on() {
    let files = vec!["/in/a.jpg".to_string(), "/in/b.jpg".to_string(), "/in/c.cr2".to_string()];
    let mut s = AppState::new();
    let plan = plan_transfers(&files, "/out");
    let outcomes = [true, false, true];
    for (job, ok) in plan.jobs.iter().zip(outcomes) {
        s.record_copy(job, ok);
    }
    assert_eq!(s.transferred_files, vec!["a.jpg", "c.cr2"]);
}
