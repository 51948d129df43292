use crossbeam_channel::{unbounded, RecvError};
use win_rmdir_fast::broker::Broker;
use win_rmdir_fast::scan::DirEntry;
use win_rmdir_fast::tree::DirectoryTree;
use win_rmdir_fast::worker::{await_work, files_to_delete, work_event, WorkerEvent, WorkerState};

fn dir(text: &str) -> String {
    text.to_string()
}

fn entry(path: &str, is_dir: bool) -> DirEntry {
    let name = path.rsplit('/').next().unwrap_or("").to_string();
    DirEntry { path: path.to_string(), name, is_dir }
}

#[test]
fn worker_walks_through_one_directory() {
    let state = WorkerState::AwaitWork;
    let state = state.step(WorkerEvent::WorkReceived { dir: dir("/t/a") });
    assert!(matches!(&state, WorkerState::DeleteContents { dir } if dir == "/t/a"));
    let state = state.step(WorkerEvent::ContentsCleared);
    assert!(matches!(&state, WorkerState::RemoveDirectory { dir } if dir == "/t/a"));
    let state = state.step(WorkerEvent::DirectoryRemoved);
    assert!(matches!(&state, WorkerState::ReportCompletion { dir } if dir == "/t/a"));
    let state = state.step(WorkerEvent::CompletionReported);
    assert!(matches!(state, WorkerState::AwaitWork));
}

#[test]
fn closed_channel_stops_a_waiting_worker() {
    let state = WorkerState::AwaitWork.step(WorkerEvent::ChannelClosed);
    assert!(matches!(state, WorkerState::Stopped));
    // and it stays stopped
    let state = state.step(WorkerEvent::WorkReceived { dir: dir("/t/a") });
    assert!(matches!(state, WorkerState::Stopped));
    let state = state.step(WorkerEvent::ChannelClosed);
    assert!(matches!(state, WorkerState::Stopped));
}

#[test]
fn failed_removal_returns_to_waiting_without_a_report() {
    let state = WorkerState::RemoveDirectory { dir: dir("/t/a") };
    let state = state.step(WorkerEvent::RemovalFailed);
    assert!(matches!(state, WorkerState::AwaitWork));
}

#[test]
fn events_that_do_not_fit_change_nothing() {
    let state = WorkerState::AwaitWork.step(WorkerEvent::DirectoryRemoved);
    assert!(matches!(state, WorkerState::AwaitWork));
    let state = state.step(WorkerEvent::ContentsCleared);
    assert!(matches!(state, WorkerState::AwaitWork));
    let state = state.step(WorkerEvent::CompletionReported);
    assert!(matches!(state, WorkerState::AwaitWork));
    let state = state.step(WorkerEvent::RemovalFailed);
    assert!(matches!(state, WorkerState::AwaitWork));

    let state = WorkerState::DeleteContents { dir: dir("/t/a") };
    let state = state.step(WorkerEvent::DirectoryRemoved);
    assert!(matches!(&state, WorkerState::DeleteContents { dir } if dir == "/t/a"));
    let state = state.step(WorkerEvent::WorkReceived { dir: dir("/t/b") });
    assert!(matches!(&state, WorkerState::DeleteContents { dir } if dir == "/t/a"));
    let state = state.step(WorkerEvent::ChannelClosed);
    assert!(matches!(&state, WorkerState::DeleteContents { dir } if dir == "/t/a"));

    let state = WorkerState::RemoveDirectory { dir: dir("/t/a") };
    let state = state.step(WorkerEvent::ContentsCleared);
    assert!(matches!(&state, WorkerState::RemoveDirectory { dir } if dir == "/t/a"));
    let state = state.step(WorkerEvent::CompletionReported);
    assert!(matches!(&state, WorkerState::RemoveDirectory { dir } if dir == "/t/a"));

    let state = WorkerState::ReportCompletion { dir: dir("/t/a") };
    let state = state.step(WorkerEvent::RemovalFailed);
    assert!(matches!(&state, WorkerState::ReportCompletion { dir } if dir == "/t/a"));
    let state = state.step(WorkerEvent::DirectoryRemoved);
    assert!(matches!(&state, WorkerState::ReportCompletion { dir } if dir == "/t/a"));
}

#[test]
fn receive_outcomes_become_events() {
    assert!(matches!(
        work_event(Ok(dir("/t/a"))),
        WorkerEvent::WorkReceived { dir } if dir == "/t/a"
    ));
    assert!(matches!(work_event(Err(RecvError)), WorkerEvent::ChannelClosed));
}

#[test]
fn await_work_takes_messages_in_order_then_sees_the_end() {
    let (tx, rx) = unbounded();
    tx.send(dir("/t/a")).unwrap();
    tx.send(dir("/t/b")).unwrap();
    drop(tx);
    assert!(matches!(await_work(&rx), WorkerEvent::WorkReceived { dir } if dir == "/t/a"));
    assert!(matches!(await_work(&rx), WorkerEvent::WorkReceived { dir } if dir == "/t/b"));
    assert!(matches!(await_work(&rx), WorkerEvent::ChannelClosed));
}

#[test]
fn files_to_delete_keeps_everything_but_directories() {
    let entries = vec![
        entry("/t/a.txt", false),
        entry("/t/sub", true),
        entry("/t/b.txt", false),
        entry("/t/link", false),
        entry("/t/sub2", true),
    ];
    assert_eq!(files_to_delete(&entries), vec![dir("/t/a.txt"), dir("/t/b.txt"), dir("/t/link")]);
    assert_eq!(files_to_delete(&Vec::new()), Vec::<String>::new());
    assert_eq!(files_to_delete(&vec![entry("/t/sub", true)]), Vec::<String>::new());
}

/// Runs one worker to the end. `fails` names the directory whose removal fails.
fn run_worker(tree: DirectoryTree, fails: Option<&str>) -> (Vec<String>, Broker, bool) {
    let (mut broker, tx, rx) = Broker::new(tree);
    drop(tx);
    let mut removed = Vec::new();
    let mut state = WorkerState::AwaitWork;
    let mut stalled = false;
    loop {
        let event = match &state {
            WorkerState::AwaitWork => {
                if rx.is_empty() && broker.completed_count() < broker.total_dirs() {
                    // a real worker would block here for ever
                    stalled = true;
                    break;
                }
                await_work(&rx)
            }
            WorkerState::DeleteContents { .. } => WorkerEvent::ContentsCleared,
            WorkerState::RemoveDirectory { dir } => {
                if fails == Some(dir.as_str()) {
                    WorkerEvent::RemovalFailed
                } else {
                    removed.push(dir.clone());
                    WorkerEvent::DirectoryRemoved
                }
            }
            WorkerState::ReportCompletion { dir } => {
                broker.mark_complete(dir.clone());
                WorkerEvent::CompletionReported
            }
            WorkerState::Stopped => break,
        };
        state = state.step(event);
    }
    (removed, broker, stalled)
}

fn small_tree() -> DirectoryTree {
    // root -> {a -> {c}, b}
    let mut tree = DirectoryTree::new();
    tree.dirs = vec![dir("/r"), dir("/r/a"), dir("/r/b"), dir("/r/a/c")];
    tree.leaves = vec![dir("/r/b"), dir("/r/a/c")];
    tree.children =
        vec![(dir("/r"), vec![dir("/r/a"), dir("/r/b")]), (dir("/r/a"), vec![dir("/r/a/c")])];
    tree
}

#[test]
fn one_worker_removes_the_whole_tree_bottom_up() {
    let (removed, broker, stalled) = run_worker(small_tree(), None);
    assert!(!stalled);
    assert_eq!(removed, vec![dir("/r/b"), dir("/r/a/c"), dir("/r/a"), dir("/r")]);
    assert_eq!(broker.completed_count(), 4);
    assert_eq!(broker.completed_count(), broker.total_dirs());
    assert_eq!(broker.pending_count(), 0);
}

#[test]
fn failed_removal_of_a_leaf_stalls_the_run() {
    let (removed, broker, stalled) = run_worker(small_tree(), Some("/r/a/c"));
    assert!(stalled);
    // the ancestors of the leaf are never handed out
    assert_eq!(removed, vec![dir("/r/b")]);
    assert_eq!(broker.completed_count(), 1);
    assert!(broker.completed_count() < broker.total_dirs());
    assert_eq!(broker.pending_count(), 2);
}
