use p2p_distributed_tswap::metrics::{
    PathComputationMetrics, TaskMetric, TaskMetricsCollector, TaskStatus,
};
use std::time::Duration;

fn ledger() -> TaskMetricsCollector {
    let mut c = TaskMetricsCollector::new();
    c.add_metric(TaskMetric::new_at(2, "peerB".to_string(), 1000));
    c.add_metric(TaskMetric::new_at(1, "peerA".to_string(), 500));
    c.add_metric(TaskMetric::new_at(3, "peerC".to_string(), 2000));
    c
}

#[test]
fn new_metric_is_sent_and_open() {
    let m = TaskMetric::new_at(7, "p".to_string(), 42);
    assert_eq!(m.task_id, 7);
    assert_eq!(m.sent_time, 42);
    assert_eq!(m.status, TaskStatus::Sent);
    assert_eq!(m.received_time, None);
    assert_eq!(m.get_total_time(), None);
    assert_eq!(m.get_agent_processing_time(), None);
    assert_eq!(m.get_startup_latency(), None);
    let now = TaskMetric::new(8, "q".to_string());
    assert_eq!(now.status, TaskStatus::Sent);
    assert!(now.sent_time > 0);
}

#[test]
fn durations_follow_the_timestamps() {
    let mut m = TaskMetric::new_at(1, "p".to_string(), 100);
    m.start_time = Some(130);
    m.completion_time = Some(190);
    assert_eq!(m.get_total_time(), Some(90));
    assert_eq!(m.get_agent_processing_time(), Some(60));
    assert_eq!(m.get_startup_latency(), Some(30));
    m.completion_time = Some(50);
    assert_eq!(m.get_total_time(), Some(0));
}

#[test]
fn lifecycle_updates_advance_and_stop_after_completion() {
    let mut c = ledger();
    c.update_received_at(1, 510);
    c.update_started_at(1, 520);
    c.update_completed_at(1, 600);
    c.update_received_at(1, 9999);
    c.update_failed(1);
    let m = &c.metrics[0];
    assert_eq!(m.task_id, 1);
    assert_eq!(m.status, TaskStatus::Completed);
    assert_eq!(m.received_time, Some(510));
    assert_eq!(m.start_time, Some(520));
    assert_eq!(m.completion_time, Some(600));
    assert!(m.sent_time <= 510 && 510 <= 520 && 520 <= 600);
    c.update_failed(2);
    c.update_completed_at(2, 5000);
    assert_eq!(c.metrics[1].status, TaskStatus::Failed);
    assert_eq!(c.metrics[1].completion_time, None);
    // unknown ids change nothing
    c.update_received_at(99, 1);
    assert_eq!(c.metrics.len(), 3);
}

#[test]
fn completion_arriving_first_closes_the_row_in_order() {
    let mut c = ledger();
    // the completion report overtakes the receipt and start reports
    c.update_completed_at(1, 900);
    let m = &c.metrics[0];
    assert_eq!(m.status, TaskStatus::Completed);
    assert_eq!(m.received_time, Some(500));
    assert_eq!(m.start_time, Some(500));
    assert_eq!(m.completion_time, Some(900));
    // late reports no longer change it
    c.update_received_at(1, 600);
    assert_eq!(c.metrics[0].received_time, Some(500));
    // a received row completing before its start report keeps receipt order
    c.update_received_at(2, 1100);
    c.update_completed_at(2, 1050);
    let m = &c.metrics[1];
    assert_eq!(m.received_time, Some(1100));
    assert_eq!(m.start_time, Some(1100));
    assert_eq!(m.completion_time, Some(1100));
}

#[test]
fn wall_clock_updates_stamp_times() {
    let mut c = ledger();
    c.update_received(3);
    c.update_started(3);
    c.update_completed(3);
    let m = &c.metrics[2];
    assert_eq!(m.status, TaskStatus::Completed);
    assert!(m.received_time.is_some() && m.start_time.is_some() && m.completion_time.is_some());
}

#[test]
fn ledger_is_keyed_by_task_id() {
    let mut c = ledger();
    assert_eq!(c.metrics.iter().map(|m| m.task_id).collect::<Vec<_>>(), vec![1, 2, 3]);
    // the first row of a task id wins
    c.add_metric(TaskMetric::new_at(2, "other".to_string(), 7));
    assert_eq!(c.metrics.len(), 3);
    assert_eq!(c.metrics[1].peer_id, "peerB");
    assert_eq!(c.metrics[1].sent_time, 1000);
}

#[test]
fn statistics_over_completed_tasks() {
    let mut c = ledger();
    c.update_received_at(1, 550);
    c.update_started_at(1, 600);
    c.update_completed_at(1, 900);
    c.update_received_at(2, 1050);
    c.update_started_at(2, 1100);
    c.update_completed_at(2, 1500);
    c.update_failed(3);
    let s = c.get_statistics();
    assert_eq!(s.total_tasks, 3);
    assert_eq!(s.completed_tasks, 2);
    assert_eq!(s.failed_tasks, 1);
    // totals 400 and 500, processing 300 and 400, latency 100 and 100
    assert_eq!(s.avg_total_time, 450);
    assert_eq!(s.avg_processing_time, 350);
    assert_eq!(s.avg_startup_latency, 100);
    assert_eq!(s.min_total_time, 400);
    assert_eq!(s.max_total_time, 500);
    assert_eq!(s.min_processing_time, 300);
    assert_eq!(s.max_processing_time, 400);
}

#[test]
fn statistics_of_empty_ledger_are_zero() {
    let s = TaskMetricsCollector::new().get_statistics();
    assert_eq!(s.total_tasks, 0);
    assert_eq!(s.completed_tasks, 0);
    assert_eq!(s.avg_total_time, 0);
    assert_eq!(s.min_total_time, 0);
    assert_eq!(s.max_processing_time, 0);
}

#[test]
fn ledger_csv_lists_tasks_by_id() {
    let mut c = ledger();
    c.update_received_at(1, 510);
    c.update_started_at(1, 520);
    c.update_completed_at(1, 600);
    let csv = c.to_csv_string();
    let expected = "task_id,peer_id,sent_time_ms,received_time_ms,start_time_ms,completion_time_ms,total_time_ms,processing_time_ms,startup_latency_ms,status\n\
1,peerA,500,510,520,600,100,80,20,completed\n\
2,peerB,1000,0,0,0,,,,sent\n\
3,peerC,2000,0,0,0,,,,sent\n";
    assert_eq!(csv, expected);
}

#[test]
fn path_samples_and_statistics() {
    let mut p = PathComputationMetrics::new();
    assert!(p.is_empty());
    assert!(p.get_statistics().is_none());
    p.record_micros(1500);
    p.record_micros(250);
    p.record_duration(Duration::from_millis(2));
    assert_eq!(p.len(), 3);
    assert_eq!(p.samples, vec![1500, 250, 2000]);
    let s = p.get_statistics().unwrap();
    assert_eq!(s.samples, 3);
    assert_eq!(s.total_micros, 3750);
    assert_eq!(s.min_micros, 250);
    assert_eq!(s.max_micros, 2000);
    p.clear();
    assert_eq!(p.len(), 0);
}

#[test]
fn path_csv_has_millis_with_three_decimals() {
    let mut p = PathComputationMetrics::new();
    p.record_micros(1500);
    p.record_micros(7);
    p.record_micros(123456);
    assert_eq!(
        p.to_csv_string(),
        "sample_index,duration_micros,duration_millis\n0,1500,1.500\n1,7,0.007\n2,123456,123.456\n"
    );
}
