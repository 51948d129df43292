use crossbeam_channel::{RecvError, TryRecvError};
use win_rmdir_fast::broker::Broker;
use win_rmdir_fast::scan::{DirEntry, TreeScan};
use win_rmdir_fast::tree::DirectoryTree;
use win_rmdir_fast::worker::{work_event, WorkerEvent, WorkerState};

/// A full tree of the given depth in which every directory has `fanout`
/// sub-directories and one file.
fn full_tree(depth: usize, fanout: usize) -> DirectoryTree {
    let mut scan = TreeScan::new(String::from("/t"));
    while let Some(dir) = scan.next_directory() {
        let level = dir.matches('/').count() - 1;
        let mut entries = Vec::new();
        if level < depth {
            for i in 0..fanout {
                entries.push(DirEntry {
                    path: format!("{}/d{}", dir, i),
                    name: format!("d{}", i),
                    is_dir: true,
                });
            }
        }
        entries.push(DirEntry {
            path: format!("{}/file", dir),
            name: String::from("file"),
            is_dir: false,
        });
        scan.record_listing(entries);
    }
    scan.finish()
}

/// Steps `count` workers in turn, each one event at a time, until all have
/// stopped. Worker `i` needs `i + 1` turns to remove a directory, so that the
/// workers overtake each other. Returns the directories in the order in which
/// they were reported.
fn run_pool(tree: DirectoryTree, count: usize) -> (Vec<String>, Broker) {
    let (mut broker, tx, rx) = Broker::new(tree);
    drop(tx);
    let mut order = Vec::new();
    let mut states: Vec<WorkerState> = (0..count).map(|_| WorkerState::AwaitWork).collect();
    let mut busy = vec![0usize; count];
    let mut stopped = 0;
    let mut turns = 0;
    while stopped < count {
        turns += 1;
        assert!(turns < 1_000_000, "the pool does not come to an end");
        for i in 0..count {
            let state = std::mem::replace(&mut states[i], WorkerState::Stopped);
            let event = match &state {
                WorkerState::AwaitWork => match rx.try_recv() {
                    Ok(dir) => Some(work_event(Ok(dir))),
                    Err(TryRecvError::Disconnected) => Some(work_event(Err(RecvError))),
                    Err(TryRecvError::Empty) => None,
                },
                WorkerState::DeleteContents { .. } => {
                    busy[i] = i + 1;
                    Some(WorkerEvent::ContentsCleared)
                }
                WorkerState::RemoveDirectory { .. } => {
                    busy[i] -= 1;
                    if busy[i] == 0 {
                        Some(WorkerEvent::DirectoryRemoved)
                    } else {
                        None
                    }
                }
                WorkerState::ReportCompletion { dir } => {
                    order.push(dir.clone());
                    broker.mark_complete(dir.clone());
                    Some(WorkerEvent::CompletionReported)
                }
                WorkerState::Stopped => None,
            };
            let was_stopped = matches!(state, WorkerState::Stopped);
            let next = match event {
                Some(event) => state.step(event),
                None => state,
            };
            if !was_stopped && matches!(next, WorkerState::Stopped) {
                stopped += 1;
            }
            states[i] = next;
        }
    }
    (order, broker)
}

#[test]
fn pool_of_workers_removes_every_directory_once_and_children_first() {
    let tree = full_tree(4, 3);
    let dirs = tree.dirs.clone();
    let leaves = tree.leaves.clone();
    let children = tree.children.clone();
    assert_eq!(dirs.len(), 1 + 3 + 9 + 27 + 81);
    assert_eq!(tree.leaves.len(), 81);
    assert_eq!(tree.file_count, 121);

    let (order, broker) = run_pool(tree, 4);

    assert_eq!(order.len(), dirs.len());
    let mut sorted = order.clone();
    sorted.sort();
    sorted.dedup();
    assert_eq!(sorted.len(), dirs.len());
    for dir in &dirs {
        assert!(order.contains(dir));
    }
    // every child was reported before its parent
    for (parent, kids) in &children {
        let at = order.iter().position(|d| d == parent).unwrap();
        for kid in kids {
            assert!(order.iter().position(|d| d == kid).unwrap() < at);
        }
    }
    // the workers did overtake each other
    assert_ne!(order[..81], leaves[..]);
    assert_eq!(order[120], "/t");
    assert_eq!(broker.completed_count(), broker.total_dirs());
    assert_eq!(broker.pending_count(), 0);
}

#[test]
fn pool_size_does_not_change_what_is_removed() {
    for count in [1, 2, 3, 7] {
        let tree = full_tree(3, 2);
        let mut dirs = tree.dirs.clone();
        let (mut order, broker) = run_pool(tree, count);
        assert_eq!(order.last().map(|d| d.as_str()), Some("/t"));
        order.sort();
        dirs.sort();
        assert_eq!(order, dirs);
        assert_eq!(broker.completed_count(), 15);
    }
}
