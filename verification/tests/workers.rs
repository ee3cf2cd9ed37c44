use atlas_editor::bg_worker::{BackgroundWorkerViewFeedback, apply_view_feedback};

#[test]
fn reports_set_and_clear_the_worker_line() {
    let mut status: Vec<Option<String>> = vec![None; 3];
    apply_view_feedback(&mut status, BackgroundWorkerViewFeedback::BeginWork(1, "Loading a".to_string()));
    assert_eq!(status, vec![None, Some("Loading a".to_string()), None]);
    apply_view_feedback(&mut status, BackgroundWorkerViewFeedback::BeginWork(2, "Loading b".to_string()));
    apply_view_feedback(&mut status, BackgroundWorkerViewFeedback::EndWork(1));
    assert_eq!(status, vec![None, None, Some("Loading b".to_string())]);
}

#[test]
fn report_names_its_worker() {
    assert_eq!(BackgroundWorkerViewFeedback::EndWork(4).worker(), 4);
    assert_eq!(BackgroundWorkerViewFeedback::BeginWork(2, String::new()).worker(), 2);
}
