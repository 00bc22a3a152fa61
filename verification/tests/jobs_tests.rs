use merlion_kernel::jobs::{add_job, bg, fg, job_finished, list_jobs, mark_done, parse_background, reap_finished, JobState, JobTable};

#[test]
fn add_fg_bg_done() {
    let mut t = JobTable::new();
    assert_eq!(add_job(&mut t, 10, "sleep 5".to_string(), true), 1);
    assert_eq!(add_job(&mut t, 11, "top".to_string(), false), 2);
    assert_eq!(bg(&mut t, 1), Err("job already running in background"));
    assert_eq!(fg(&mut t, 1), Ok("sleep 5".to_string()));
    assert_eq!(bg(&mut t, 1), Ok("[1] sleep 5 &".to_string()));
    assert_eq!(fg(&mut t, 9), Err("no such job"));
    assert_eq!(mark_done(&mut t, 10), Some("\n[1]+  Done  sleep 5".to_string()));
    assert_eq!(mark_done(&mut t, 10), None);
    assert_eq!(fg(&mut t, 1), Err("job already finished"));
    assert!(job_finished(&t, 1));
    assert!(!job_finished(&t, 2));
    assert!(job_finished(&t, 42));
    // the finished job's slot is reused
    assert_eq!(add_job(&mut t, 12, "ls".to_string(), false), 3);
    assert_eq!(t.jobs[0].as_ref().unwrap().id, 3);
}

#[test]
fn reap_and_list() {
    let mut t = JobTable::new();
    let (n, s) = list_jobs(&mut t, &[]);
    assert!(n.is_empty());
    assert_eq!(s, "No jobs.\n");
    add_job(&mut t, 5, "a".to_string(), true);
    add_job(&mut t, 6, "b".to_string(), false);
    let notes = reap_finished(&mut t, &[6]);
    assert_eq!(notes, vec!["\n[1]+  Done  a".to_string()]);
    assert_eq!(t.jobs[0].as_ref().unwrap().state, JobState::Done);
    let (_, s) = list_jobs(&mut t, &[6]);
    assert_eq!(s, "[1]  Done      pid 5  a &\n[2]  Running   pid 6  b\n");
}

#[test]
fn table_full_is_not_tracked() {
    let mut t = JobTable::new();
    for p in 0..16 {
        add_job(&mut t, p, "x".to_string(), false);
    }
    assert_eq!(add_job(&mut t, 99, "y".to_string(), false), 17);
    assert!(t.jobs.iter().all(|j| j.as_ref().unwrap().pid != 99));
}

#[test]
fn background_suffix() {
    assert_eq!(parse_background("  ls -l &  "), ("ls -l", true));
    assert_eq!(parse_background("make&"), ("make", true));
    assert_eq!(parse_background(" echo hi "), ("echo hi", false));
    assert_eq!(parse_background("&"), ("", true));
}
