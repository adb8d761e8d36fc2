//! What is said when something fails.
use crate::path::{FilePath, PathView};
use vstd::prelude::*;

verus! {

/// What can fail: a file cannot be read, parsed or written, or the page cannot be opened.
#[derive(Debug)]
pub enum Failure {
    Read { path: FilePath, error: String },
    Parse { path: FilePath, error: String },
    ParseJson { path: FilePath, error: String },
    SerializeJson { error: String },
    Write { path: FilePath, error: String },
    WriteStdout { error: String },
    RunOpen { path: FilePath, error: String },
    OpenExit { path: FilePath, status: String },
}

/// The mathematical value of a [`Failure`].
pub enum FailureView {
    Read { path: PathView, error: Seq<char> },
    Parse { path: PathView, error: Seq<char> },
    ParseJson { path: PathView, error: Seq<char> },
    SerializeJson { error: Seq<char> },
    Write { path: PathView, error: Seq<char> },
    WriteStdout { error: Seq<char> },
    RunOpen { path: PathView, error: Seq<char> },
    OpenExit { path: PathView, status: Seq<char> },
}

impl DeepView for Failure {
    type V = FailureView;

    open spec fn deep_view(&self) -> FailureView {
        match self {
            Failure::Read { path, error } => FailureView::Read { path: path@, error: error@ },
            Failure::Parse { path, error } => FailureView::Parse { path: path@, error: error@ },
            Failure::ParseJson { path, error } => FailureView::ParseJson {
                path: path@,
                error: error@,
            },
            Failure::SerializeJson { error } => FailureView::SerializeJson { error: error@ },
            Failure::Write { path, error } => FailureView::Write { path: path@, error: error@ },
            Failure::WriteStdout { error } => FailureView::WriteStdout { error: error@ },
            Failure::RunOpen { path, error } => FailureView::RunOpen { path: path@, error: error@ },
            Failure::OpenExit { path, status } => FailureView::OpenExit {
                path: path@,
                status: status@,
            },
        }
    }
}

/// The path that a failure is about, if it is about one.
pub open spec fn failed_path(failure: FailureView) -> Option<PathView> {
    match failure {
        FailureView::Read { path, .. } => Some(path),
        FailureView::Parse { path, .. } => Some(path),
        FailureView::ParseJson { path, .. } => Some(path),
        FailureView::SerializeJson { .. } => None,
        FailureView::Write { path, .. } => Some(path),
        FailureView::WriteStdout { .. } => None,
        FailureView::RunOpen { path, .. } => Some(path),
        FailureView::OpenExit { path, .. } => Some(path),
    }
}

/// What is said of a failure, whose path is shown as `shown`.
pub open spec fn failure_message(failure: FailureView, shown: Seq<char>) -> Seq<char> {
    match failure {
        FailureView::Read { error, .. } => "failed to read "@ + shown + ": "@ + error,
        FailureView::Parse { error, .. } => "failed to parse "@ + shown + ": "@ + error,
        FailureView::ParseJson { error, .. } => "failed to parse "@ + shown
            + " as internal dependency json: "@ + error,
        FailureView::SerializeJson { error } => "failed to serialize internal dependency json: "@
            + error,
        FailureView::Write { error, .. } => "failed to write "@ + shown + ": "@ + error,
        FailureView::WriteStdout { error } => "failed to write stdout: "@ + error,
        FailureView::RunOpen { error, .. } => "failed to run open "@ + shown + ": "@ + error,
        FailureView::OpenExit { status, .. } => "open "@ + shown + " exited with "@ + status,
    }
}

impl Failure {
    /// The path that the failure is about, if it is about one.
    pub fn path(&self) -> (path: Option<&FilePath>)
        ensures
            path is Some <==> failed_path(self.deep_view()) is Some,
            path matches Some(path) ==> failed_path(self.deep_view()) == Some(path@),
    {
        match self {
            Failure::Read { path, .. } => Some(path),
            Failure::Parse { path, .. } => Some(path),
            Failure::ParseJson { path, .. } => Some(path),
            Failure::SerializeJson { .. } => None,
            Failure::Write { path, .. } => Some(path),
            Failure::WriteStdout { .. } => None,
            Failure::RunOpen { path, .. } => Some(path),
            Failure::OpenExit { path, .. } => Some(path),
        }
    }

    /// The same failure once more.
    pub fn copy(&self) -> (copy: Failure)
        ensures
            copy.deep_view() == self.deep_view(),
    {
        match self {
            Failure::Read { path, error } => Failure::Read {
                path: path.copy(),
                error: error.clone(),
            },
            Failure::Parse { path, error } => Failure::Parse {
                path: path.copy(),
                error: error.clone(),
            },
            Failure::ParseJson { path, error } => Failure::ParseJson {
                path: path.copy(),
                error: error.clone(),
            },
            Failure::SerializeJson { error } => Failure::SerializeJson { error: error.clone() },
            Failure::Write { path, error } => Failure::Write {
                path: path.copy(),
                error: error.clone(),
            },
            Failure::WriteStdout { error } => Failure::WriteStdout { error: error.clone() },
            Failure::RunOpen { path, error } => Failure::RunOpen {
                path: path.copy(),
                error: error.clone(),
            },
            Failure::OpenExit { path, status } => Failure::OpenExit {
                path: path.copy(),
                status: status.clone(),
            },
        }
    }

    /// What is said of the failure. How a path is shown is the host's to say: `shown` is the text
    /// for the path that the failure is about, and is not used where it is about none.
    pub fn message(&self, shown: &str) -> (text: String)
        ensures
            text@ == failure_message(self.deep_view(), shown@),
    {
        match self {
            Failure::Read { error, .. } => about("failed to read ", shown, ": ", error),
            Failure::Parse { error, .. } => about("failed to parse ", shown, ": ", error),
            Failure::ParseJson { error, .. } => about(
                "failed to parse ",
                shown,
                " as internal dependency json: ",
                error,
            ),
            Failure::SerializeJson { error } => {
                let mut text = "failed to serialize internal dependency json: ".to_owned();
                text.append(error.as_str());
                text
            },
            Failure::Write { error, .. } => about("failed to write ", shown, ": ", error),
            Failure::WriteStdout { error } => {
                let mut text = "failed to write stdout: ".to_owned();
                text.append(error.as_str());
                text
            },
            Failure::RunOpen { error, .. } => about("failed to run open ", shown, ": ", error),
            Failure::OpenExit { status, .. } => about("open ", shown, " exited with ", status),
        }
    }
}

fn about(lead: &str, shown: &str, between: &str, detail: &String) -> (text: String)
    ensures
        text@ == lead@ + shown@ + between@ + detail@,
{
    let mut text = lead.to_owned();
    text.append(shown);
    text.append(between);
    text.append(detail.as_str());
    text
}

} // verus!
