use shell::jobs::{add_job, job_marker, jobs_cmd, reap_jobs, Job, JobState};

fn table() -> Vec<Job<u32>> {
    let mut jobs: Vec<Job<u32>> = Vec::new();
    assert_eq!(add_job(&mut jobs, 10, 1000, "sleep".to_string(), "sleep 1 &".to_string()), "[1] 1000");
    assert_eq!(add_job(&mut jobs, 11, 1001, "sleep".to_string(), "sleep 2 &".to_string()), "[2] 1001");
    assert_eq!(add_job(&mut jobs, 12, 1002, "sleep".to_string(), "sleep 3 &".to_string()), "[3] 1002");
    jobs
}

#[test]
fn state_names() {
    assert_eq!(JobState::Done.as_str(), "Done");
    assert_eq!(JobState::Running.as_str(), "Running");
}

#[test]
fn markers() {
    assert_eq!(job_marker(2, 3), "+");
    assert_eq!(job_marker(1, 3), "-");
    assert_eq!(job_marker(0, 3), " ");
    assert_eq!(job_marker(0, 1), "+");
}

#[test]
fn orig_drops_last_char_when_done() {
    let mut jobs = table();
    assert_eq!(jobs[0].orig(), "sleep 1 &");
    jobs[0].state = JobState::Done;
    assert_eq!(jobs[0].orig(), "sleep 1 ");
}

#[test]
fn new_jobs_get_next_number() {
    let mut jobs = table();
    assert_eq!(jobs.iter().map(|j| j.id).collect::<Vec<_>>(), vec![1, 2, 3]);
    assert_eq!(jobs[2].pid, 1002);
    assert_eq!(jobs[2].child, 12);
    assert_eq!(jobs[2].state, JobState::Running);
    // numbers go above the largest in use, not into gaps
    jobs.remove(0);
    add_job(&mut jobs, 13, 7, "x".to_string(), "x &".to_string());
    assert_eq!(jobs[2].id, 4);
}

#[test]
fn reap_reports_done_jobs_and_drops_them() {
    let mut jobs = table();
    let lines = reap_jobs(&mut jobs, &vec![false, true, false]);
    assert_eq!(lines, vec![format!("[{}]{}  {:<24}{}", 2, "-", "Done", "sleep 2 ")]);
    assert_eq!(lines[0], "[2]-  Done                    sleep 2 ");
    assert_eq!(jobs.iter().map(|j| j.id).collect::<Vec<_>>(), vec![1, 3]);
    assert!(jobs.iter().all(|j| j.state == JobState::Running));
}

#[test]
fn reap_with_nothing_finished() {
    let mut jobs = table();
    assert!(reap_jobs(&mut jobs, &vec![]).is_empty());
    assert_eq!(jobs.len(), 3);
    let mut none: Vec<Job<u32>> = Vec::new();
    assert!(reap_jobs(&mut none, &vec![true]).is_empty());
}

#[test]
fn jobs_lists_everything() {
    let mut jobs = table();
    let lines = jobs_cmd(&mut jobs, &vec![false, false, true]);
    assert_eq!(
        lines,
        vec![
            format!("[{}]{}  {:<24}{}", 1, " ", "Running", "sleep 1 &"),
            format!("[{}]{}  {:<24}{}", 2, "-", "Running", "sleep 2 &"),
            format!("[{}]{}  {:<24}{}", 3, "+", "Done", "sleep 3 "),
        ]
    );
    assert_eq!(jobs.len(), 2);
}
