use flowscript::handle::{claim, complete, JobHandle, Status};
use flowscript::jobs::{Job, JobData, RenderJob};
use flowscript::pool::{pick_slave, HistoryEntry, JobStatus, MasterState};
use flowscript::queue::{send_job, MessageQueue, WorkerMessage};

#[test]
fn queue_is_fifo_for_one_consumer() {
    // send(a) before send(b): a is delivered first
    let q: std::sync::Arc<MessageQueue<u64>> = MessageQueue::new();
    q.send(1);
    q.send(2);
    q.send(3);
    assert_eq!(q.recv(), 1);
    assert_eq!(q.recv(), 2);
    assert_eq!(q.recv(), 3);
}

#[test]
fn handle_rendezvous_publishes_result() {
    // for a submitted job there is a state where get returns: here the
    // worker's half runs first, then get finds the result at once
    let handle: JobHandle<u64, u64> = JobHandle::new(21);
    assert_eq!(handle.get_status(), Status::Queued);
    let inner = handle.handle_inner.clone();
    let x = claim(&inner).expect("the input is taken on first claim");
    assert_eq!(x, 21);
    assert_eq!(handle.get_status(), Status::Running);
    complete(&inner, x * 2);
    assert_eq!(handle.get_status(), Status::Completed);
    assert_eq!(handle.get(), 42);
}

#[test]
fn claim_takes_input_exactly_once() {
    // a duplicate delivery finds the slot empty and takes nothing
    let handle: JobHandle<u64, u64> = JobHandle::new(7);
    let inner = handle.handle_inner.clone();
    assert_eq!(claim(&inner), Some(7));
    assert_eq!(claim(&inner), None);
}

#[test]
fn send_job_enqueues_handle_with_name() {
    let q = MessageQueue::new();
    let handle: JobHandle<u64, u64> = send_job(&q, 5, "double".to_string());
    assert_eq!(handle.get_status(), Status::Queued);
    match q.recv() {
        WorkerMessage::Handle(inner, name) => {
            assert_eq!(name, "double");
            // a worker would now run the registered job on the input
            let x = claim(&inner).unwrap();
            complete(&inner, x * 2);
        }
        WorkerMessage::Join => panic!("expected a handle, not the sentinel"),
    }
    assert_eq!(handle.get(), 10);
}

#[test]
fn join_sentinel_passes_through_queue() {
    let q: std::sync::Arc<MessageQueue<WorkerMessage<u64, u64>>> = MessageQueue::new();
    q.send(WorkerMessage::Join);
    assert!(matches!(q.recv(), WorkerMessage::Join));
}

#[test]
fn pick_slave_takes_least_pressure() {
    assert_eq!(pick_slave(&vec![3, 1, 2]), Some(1));
    assert_eq!(pick_slave(&vec![]), None);
    assert_eq!(pick_slave(&vec![5]), Some(0));
}

#[test]
fn pick_slave_breaks_ties_toward_last() {
    // as min_by_key over an iterator does
    assert_eq!(pick_slave(&vec![2, 1, 1, 3]), Some(2));
    assert_eq!(pick_slave(&vec![0, 0]), Some(1));
}

#[test]
fn master_state_tracks_jobs() {
    let mut st: MasterState<RenderJob> = MasterState::new();
    st.note_submitted(10);
    st.note_submitted(11);
    assert_eq!(st.running_ids, vec![10, 11]);
    let job = RenderJob::new(10, 4, 0, vec![1, 2]);
    st.note_completed(10, 4, job);
    assert_eq!(st.running_ids, vec![11]);
    assert_eq!(
        st.history,
        vec![HistoryEntry { job_type: 4, status: JobStatus::JobStatusCompleted }]
    );
    assert_eq!(st.completed_jobs.len(), 1);
}

#[test]
fn job_data_holds_its_fields() {
    let d = JobData::new(3, 7, 0b101);
    assert_eq!(d.id, 3);
    assert_eq!(d.job_type, 7);
    assert_eq!(d.channels, 0b101);
}

#[test]
fn render_job_sums_twice_into_first_slot() {
    let mut j = RenderJob::new(0, 1, 0, vec![10, 20, 30]);
    assert!(j.execute().is_ok());
    assert_eq!(j.render_data, vec![120, 20, 30]);
    assert_eq!(j.get_unique_id(), 0);
    assert_eq!(j.get_type(), 1);
    assert!(j.complete_callback().is_ok());
}

#[test]
fn render_job_empty_data_is_fine() {
    let mut j = RenderJob::new(1, 1, 0, vec![]);
    assert!(j.execute().is_ok());
    assert_eq!(j.render_data, Vec::<i64>::new());
}

#[test]
fn render_job_refuses_overflowing_sum() {
    let mut j = RenderJob::new(2, 1, 0, vec![i64::MAX, 1]);
    assert!(j.execute().is_err());
    let mut k = RenderJob::new(3, 1, 0, vec![i64::MAX]);
    // the sum fits, but twice the sum does not
    assert!(k.execute().is_err());
}
