//! The life of one worker: await work, delete the directory's contents, remove
//! the directory, report to the broker, and again; until the channel closes.
//!
//! Deleting and removing are the caller's business. This module decides what
//! comes next.

use crate::model::DirPath;
use crate::scan::{lemma_listed_files_step, listed_files, listing_view, DirEntry};
use crate::tree::paths_view;
use crossbeam_channel::{Receiver, RecvError};
use vstd::prelude::*;

verus! {

/// Where a worker stands.
#[derive(Debug)]
pub enum WorkerState {
    /// Waiting for the channel to deliver a directory.
    AwaitWork,
    /// Deleting the files directly inside `dir`.
    DeleteContents { dir: String },
    /// Removing `dir` itself.
    RemoveDirectory { dir: String },
    /// Telling the broker that `dir` is gone.
    ReportCompletion { dir: String },
    /// The channel is closed; the worker is done.
    Stopped,
}

/// What happened to a worker.
#[derive(Debug)]
pub enum WorkerEvent {
    /// The channel delivered `dir`.
    WorkReceived { dir: String },
    /// The channel is empty and closed.
    ChannelClosed,
    /// Every entry of the directory has been attempted, with or without
    /// failures.
    ContentsCleared,
    /// The directory has been removed.
    DirectoryRemoved,
    /// The directory could not be removed.
    RemovalFailed,
    /// The broker has been told.
    CompletionReported,
}

/// A worker's state, with the directory as a path.
pub enum WorkerPhase {
    AwaitWork,
    DeleteContents { dir: DirPath },
    RemoveDirectory { dir: DirPath },
    ReportCompletion { dir: DirPath },
    Stopped,
}

/// A worker's event, with the directory as a path.
pub enum WorkerSignal {
    WorkReceived { dir: DirPath },
    ChannelClosed,
    ContentsCleared,
    DirectoryRemoved,
    RemovalFailed,
    CompletionReported,
}

impl View for WorkerState {
    type V = WorkerPhase;

    open spec fn view(&self) -> WorkerPhase {
        match self {
            WorkerState::AwaitWork => WorkerPhase::AwaitWork,
            WorkerState::DeleteContents { dir } => WorkerPhase::DeleteContents { dir: dir@ },
            WorkerState::RemoveDirectory { dir } => WorkerPhase::RemoveDirectory { dir: dir@ },
            WorkerState::ReportCompletion { dir } => WorkerPhase::ReportCompletion { dir: dir@ },
            WorkerState::Stopped => WorkerPhase::Stopped,
        }
    }
}

impl View for WorkerEvent {
    type V = WorkerSignal;

    open spec fn view(&self) -> WorkerSignal {
        match self {
            WorkerEvent::WorkReceived { dir } => WorkerSignal::WorkReceived { dir: dir@ },
            WorkerEvent::ChannelClosed => WorkerSignal::ChannelClosed,
            WorkerEvent::ContentsCleared => WorkerSignal::ContentsCleared,
            WorkerEvent::DirectoryRemoved => WorkerSignal::DirectoryRemoved,
            WorkerEvent::RemovalFailed => WorkerSignal::RemovalFailed,
            WorkerEvent::CompletionReported => WorkerSignal::CompletionReported,
        }
    }
}

impl WorkerPhase {
    /// The state that follows `self` on `signal`.
    ///
    /// A failed removal sends the worker back to waiting without a report: the
    /// directory's ancestors then never become ready. A signal that does not
    /// belong to the state changes nothing.
    pub open spec fn step(self, signal: WorkerSignal) -> WorkerPhase {
        match (self, signal) {
            (WorkerPhase::AwaitWork, WorkerSignal::WorkReceived { dir }) => {
                WorkerPhase::DeleteContents { dir }
            },
            (WorkerPhase::AwaitWork, WorkerSignal::ChannelClosed) => WorkerPhase::Stopped,
            (WorkerPhase::DeleteContents { dir }, WorkerSignal::ContentsCleared) => {
                WorkerPhase::RemoveDirectory { dir }
            },
            (WorkerPhase::RemoveDirectory { dir }, WorkerSignal::DirectoryRemoved) => {
                WorkerPhase::ReportCompletion { dir }
            },
            (WorkerPhase::RemoveDirectory { dir }, WorkerSignal::RemovalFailed) => {
                WorkerPhase::AwaitWork
            },
            (WorkerPhase::ReportCompletion { dir }, WorkerSignal::CompletionReported) => {
                WorkerPhase::AwaitWork
            },
            (state, _) => state,
        }
    }

    /// The directory that the worker holds, if it holds one.
    pub open spec fn holds(self) -> Option<DirPath> {
        match self {
            WorkerPhase::DeleteContents { dir } => Some(dir),
            WorkerPhase::RemoveDirectory { dir } => Some(dir),
            WorkerPhase::ReportCompletion { dir } => Some(dir),
            _ => None,
        }
    }
}

impl WorkerState {
    /// The state that follows `self` on `event`.
    pub fn step(self, event: WorkerEvent) -> (next: WorkerState)
        ensures
            next@ == self@.step(event@),
    {
        match (self, event) {
            (WorkerState::AwaitWork, WorkerEvent::WorkReceived { dir }) => {
                WorkerState::DeleteContents { dir }
            },
            (WorkerState::AwaitWork, WorkerEvent::ChannelClosed) => WorkerState::Stopped,
            (WorkerState::DeleteContents { dir }, WorkerEvent::ContentsCleared) => {
                WorkerState::RemoveDirectory { dir }
            },
            (WorkerState::RemoveDirectory { dir }, WorkerEvent::DirectoryRemoved) => {
                WorkerState::ReportCompletion { dir }
            },
            (WorkerState::RemoveDirectory { dir }, WorkerEvent::RemovalFailed) => {
                WorkerState::AwaitWork
            },
            (WorkerState::ReportCompletion { dir }, WorkerEvent::CompletionReported) => {
                WorkerState::AwaitWork
            },
            (state, _) => state,
        }
    }
}

/// A stopped worker stays stopped.
pub proof fn lemma_stopped_is_final(signal: WorkerSignal)
    ensures
        WorkerPhase::Stopped.step(signal) == WorkerPhase::Stopped,
{
}

/// A worker takes up a directory only while it waits, and only the one that
/// the channel delivers.
pub proof fn lemma_work_comes_from_the_channel(state: WorkerPhase, signal: WorkerSignal)
    requires
        state.step(signal).holds() is Some,
        state.step(signal).holds() != state.holds(),
    ensures
        state is AwaitWork,
        signal is WorkReceived,
        state.step(signal) == (WorkerPhase::DeleteContents { dir: signal->dir }),
{
}

/// A worker comes to report a directory only by removing it: a failed removal
/// is never reported.
pub proof fn lemma_report_follows_removal(state: WorkerPhase, signal: WorkerSignal)
    requires
        state.step(signal) is ReportCompletion,
        !(state is ReportCompletion),
    ensures
        state is RemoveDirectory,
        signal is DirectoryRemoved,
        state.step(signal).holds() == state.holds(),
{
}

/// A worker lets go of a directory only after it reported it or failed to
/// remove it.
pub proof fn lemma_release_follows_report_or_failure(state: WorkerPhase, signal: WorkerSignal)
    requires
        state.holds() is Some,
        state.step(signal).holds() != state.holds(),
    ensures
        state.step(signal) is AwaitWork,
        (state is ReportCompletion && signal is CompletionReported) || (state is RemoveDirectory
            && signal is RemovalFailed),
{
}

/// What a receive on the work channel means to a waiting worker: a directory
/// to work on, or the end of all work.
pub fn work_event(outcome: Result<String, RecvError>) -> (event: WorkerEvent)
    ensures
        event@ == match outcome {
            Ok(dir) => WorkerSignal::WorkReceived { dir: dir@ },
            Err(_) => WorkerSignal::ChannelClosed,
        },
{
    match outcome {
        Ok(dir) => WorkerEvent::WorkReceived { dir },
        Err(_) => WorkerEvent::ChannelClosed,
    }
}

/// Blocks until the work channel delivers a directory or is closed. Which of
/// the two happens is up to the other threads.
pub fn await_work(rx: &Receiver<String>) -> (event: WorkerEvent)
    ensures
        event@ is WorkReceived || event@ is ChannelClosed,
{
    work_event(rx.recv())
}

/// The entries of a listing that a worker deletes before it removes the
/// directory: every entry that is not a directory, in the order listed.
pub fn files_to_delete(entries: &Vec<DirEntry>) -> (paths: Vec<String>)
    ensures
        paths_view(paths@) == listed_files(listing_view(entries@)),
{
    let ghost listing = listing_view(entries@);
    let mut paths: Vec<String> = Vec::new();
    assert(paths_view(paths@) =~= listed_files(listing.take(0))) by {
        reveal(Seq::filter);
    }
    let mut k: usize = 0;
    while k < entries.len()
        invariant
            k <= entries.len(),
            listing == listing_view(entries@),
            paths_view(paths@) == listed_files(listing.take(k as int)),
        decreases entries.len() - k,
    {
        proof {
            lemma_listed_files_step(listing, k as int);
        }
        if !entries[k].is_dir {
            paths.push(entries[k].path.clone());
        }
        k += 1;
    }
    assert(listing.take(entries.len() as int) =~= listing);
    paths
}

} // verus!
