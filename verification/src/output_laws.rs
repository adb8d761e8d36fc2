//! Where results go, and what is said of failures.
use crate::failure::Failure;
use crate::graph::TopLevelGraph;
use crate::output::{
    json_document, temporary_html_path, write_or_open_top_level_html, HtmlOutput, OutputStep,
};
use crate::path::{joined, FilePath};
use crate::render::render_top_level_html;
use crate::text::decimal;
use vstd::prelude::*;
use vstd::utf8::encode_utf8;

verus! {

/// The page of a graph, as `render_top_level_html` writes it, goes to the file that was asked for
/// and is not opened; where none was asked for it goes to the temporary file and is opened.
pub proof fn pages_go_where_they_were_asked_for(
    graph: TopLevelGraph,
    graph_json: &str,
    output: Option<FilePath>,
    temporary: FilePath,
    planned: HtmlOutput,
    html: String,
)
    requires
        call_ensures(
            write_or_open_top_level_html,
            (&graph, graph_json, output, temporary),
            planned,
        ),
        call_ensures(render_top_level_html, (&graph, graph_json), html),
    ensures
        planned.html@ == html@,
        output matches Some(path) ==> planned.path@ == path@ && !planned.open,
        output is None ==> planned.path@ == temporary@ && planned.open,
{
}

/// Once its file was written a page is opened, if it is to be, and else nothing is left to do; a
/// file that cannot be written is a failure that tells the file and the error.
pub proof fn written_pages_are_opened_or_done(
    output: HtmlOutput,
    result: Result<(), String>,
    step: OutputStep,
)
    requires
        call_ensures(HtmlOutput::written, (&output, result), step),
    ensures
        result is Ok && output.open ==> step is Open,
        result is Ok && !output.open ==> step is Done,
        result matches Err(error) ==> match step {
            OutputStep::Fail { failure: Failure::Write { path, error: told } } => path@
                == output.path@ && told@ == error@,
            _ => false,
        },
{
    if let Err(error) = result {
        if let OutputStep::Fail { failure } = step {
            assert(step.deep_view()->failure == failure.deep_view());
        }
    }
}

/// Once the program that opens files has run, nothing is left to do; one that ended in failure is
/// told with its status, and one that could not be run with the error, each with the file.
pub proof fn opened_pages_are_done(
    output: HtmlOutput,
    result: Result<Option<String>, String>,
    step: OutputStep,
)
    requires
        call_ensures(HtmlOutput::opened, (&output, result), step),
    ensures
        match result {
            Ok(None) => step is Done,
            Ok(Some(status)) => match step {
                OutputStep::Fail { failure: Failure::OpenExit { path, status: told } } => path@
                    == output.path@ && told@ == status@,
                _ => false,
            },
            Err(error) => match step {
                OutputStep::Fail { failure: Failure::RunOpen { path, error: told } } => path@
                    == output.path@ && told@ == error@,
                _ => false,
            },
        },
{
    if let OutputStep::Fail { failure } = step {
        assert(step.deep_view()->failure == failure.deep_view());
    }
}

/// What is said of a failure: what was tried, the path that it was tried on, and the error.
pub proof fn failures_say_what_was_tried(failure: Failure, shown: &str, text: String)
    requires
        call_ensures(Failure::message, (&failure, shown), text),
    ensures
        match failure {
            Failure::Read { error, .. } => text@ == "failed to read "@ + shown@ + ": "@ + error@,
            Failure::Parse { error, .. } => text@ == "failed to parse "@ + shown@ + ": "@ + error@,
            Failure::ParseJson { error, .. } => text@ == "failed to parse "@ + shown@
                + " as internal dependency json: "@ + error@,
            Failure::SerializeJson { error } => text@
                == "failed to serialize internal dependency json: "@ + error@,
            Failure::Write { error, .. } => text@ == "failed to write "@ + shown@ + ": "@ + error@,
            Failure::WriteStdout { error } => text@ == "failed to write stdout: "@ + error@,
            Failure::RunOpen { error, .. } => text@ == "failed to run open "@ + shown@ + ": "@
                + error@,
            Failure::OpenExit { status, .. } => text@ == "open "@ + shown@ + " exited with "@
                + status@,
        },
{
}

/// A failure tells the path that it is about: the one it was made with.
pub proof fn failures_tell_their_path(failure: Failure, told: Option<&FilePath>)
    requires
        call_ensures(Failure::path, (&failure,), told),
    ensures
        match failure {
            Failure::Read { path, .. } => told is Some && told->0@ == path@,
            Failure::Parse { path, .. } => told is Some && told->0@ == path@,
            Failure::ParseJson { path, .. } => told is Some && told->0@ == path@,
            Failure::SerializeJson { .. } => told is None,
            Failure::Write { path, .. } => told is Some && told->0@ == path@,
            Failure::WriteStdout { .. } => told is None,
            Failure::RunOpen { path, .. } => told is Some && told->0@ == path@,
            Failure::OpenExit { path, .. } => told is Some && told->0@ == path@,
        },
{
}

/// A temporary page lies in the given directory and is named after the process and the time.
pub proof fn temporary_pages_are_named_after_process_and_time(
    directory: FilePath,
    process: u32,
    milliseconds: u128,
    path: FilePath,
)
    requires
        call_ensures(temporary_html_path, (&directory, process, milliseconds), path),
    ensures
        path@ == joined(
            directory@,
            encode_utf8(
                "dep-analysis-"@ + decimal(process as nat) + "-"@ + decimal(milliseconds as nat)
                    + ".html"@,
            ),
        ),
{
}

/// A JSON document is the JSON text and one line break.
pub proof fn json_documents_end_in_a_line_break(json: String, document: String)
    requires
        call_ensures(json_document, (json,), document),
    ensures
        document@ == json@ + seq!['\n'],
{
    assert(json@.push('\n') =~= json@ + seq!['\n']);
}

} // verus!
