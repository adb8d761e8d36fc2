//! Where the results go.
use crate::failure::{Failure, FailureView};
use crate::graph::TopLevelGraph;
use crate::path::{bytes_of, joined, FilePath};
use crate::render::{page, render_top_level_html};
use crate::text::{
    decimal, decimal_text, lemma_decimal_digits, numerals_tell_numbers_apart,
};
use vstd::prelude::*;
use vstd::utf8::encode_utf8;

verus! {

/// A page and the file that it goes to, which is opened afterwards where `open` says so.
#[derive(Debug)]
pub struct HtmlOutput {
    pub path: FilePath,
    pub html: String,
    pub open: bool,
}

/// What is to be done next with a page.
#[derive(Debug)]
pub enum OutputStep {
    Open,
    Done,
    Fail { failure: Failure },
}

/// The mathematical value of an [`OutputStep`].
pub enum OutputStepView {
    Open,
    Done,
    Fail { failure: FailureView },
}

impl DeepView for OutputStep {
    type V = OutputStepView;

    open spec fn deep_view(&self) -> OutputStepView {
        match self {
            OutputStep::Open => OutputStepView::Open,
            OutputStep::Done => OutputStepView::Done,
            OutputStep::Fail { failure } => OutputStepView::Fail { failure: failure.deep_view() },
        }
    }
}

/// Decides where the page of `graph` goes: to `output`, or else to the file `temporary`, which is
/// then opened. The data that the page's script draws are the JSON text `graph_json`.
pub fn write_or_open_top_level_html(
    graph: &TopLevelGraph,
    graph_json: &str,
    output: Option<FilePath>,
    temporary: FilePath,
) -> (planned: HtmlOutput)
    ensures
        planned.html@ == page(graph.deep_view(), graph_json@),
        planned.path == (match output {
            Some(path) => path,
            None => temporary,
        }),
        planned.open <==> output is None,
{
    let html = render_top_level_html(graph, graph_json);
    match output {
        Some(path) => HtmlOutput { path, html, open: false },
        None => HtmlOutput { path: temporary, html, open: true },
    }
}

impl HtmlOutput {
    /// What follows once the file was written, or could not be.
    pub fn written(&self, result: Result<(), String>) -> (step: OutputStep)
        ensures
            step.deep_view() == (match result {
                Ok(_) => if self.open {
                    OutputStepView::Open
                } else {
                    OutputStepView::Done
                },
                Err(error) => OutputStepView::Fail {
                    failure: FailureView::Write { path: self.path@, error: error@ },
                },
            }),
    {
        match result {
            Ok(_) => if self.open {
                OutputStep::Open
            } else {
                OutputStep::Done
            },
            Err(error) => OutputStep::Fail {
                failure: Failure::Write { path: self.path.copy(), error },
            },
        }
    }

    /// What follows once the file was opened. The opening program may not have run at all, which
    /// an error tells, or it may have ended in failure with some status.
    pub fn opened(&self, result: Result<Option<String>, String>) -> (step: OutputStep)
        ensures
            step.deep_view() == (match result {
                Ok(None) => OutputStepView::Done,
                Ok(Some(status)) => OutputStepView::Fail {
                    failure: FailureView::OpenExit { path: self.path@, status: status@ },
                },
                Err(error) => OutputStepView::Fail {
                    failure: FailureView::RunOpen { path: self.path@, error: error@ },
                },
            }),
    {
        match result {
            Ok(None) => OutputStep::Done,
            Ok(Some(status)) => OutputStep::Fail {
                failure: Failure::OpenExit { path: self.path.copy(), status },
            },
            Err(error) => OutputStep::Fail {
                failure: Failure::RunOpen { path: self.path.copy(), error },
            },
        }
    }
}

/// The name of a page's file, after a process and a time.
pub open spec fn temporary_name(process: nat, milliseconds: nat) -> Seq<char> {
    "dep-analysis-"@ + decimal(process) + "-"@ + decimal(milliseconds) + ".html"@
}

/// Texts of digits with a dash behind them tell the digits.
proof fn lemma_digits_before_dash(left: Seq<char>, right: Seq<char>, a: Seq<char>, b: Seq<char>)
    requires
        left + seq!['-'] + a == right + seq!['-'] + b,
        forall|i: int| 0 <= i < left.len() ==> #[trigger] left[i] != '-',
        forall|i: int| 0 <= i < right.len() ==> #[trigger] right[i] != '-',
    ensures
        left == right,
        a == b,
{
    let whole = left + seq!['-'] + a;
    let same = right + seq!['-'] + b;
    if left.len() < right.len() {
        assert(whole[left.len() as int] == '-');
        assert(same[left.len() as int] == right[left.len() as int]);
    } else if right.len() < left.len() {
        assert(same[right.len() as int] == '-');
        assert(whole[right.len() as int] == left[right.len() as int]);
    }
    assert(left =~= whole.take(left.len() as int));
    assert(right =~= same.take(left.len() as int));
    assert(a =~= whole.skip(left.len() as int + 1));
    assert(b =~= same.skip(left.len() as int + 1));
}

/// Pages of different processes or times go to files of different names.
pub proof fn temporary_names_differ(
    process: nat,
    milliseconds: nat,
    other_process: nat,
    other_milliseconds: nat,
)
    requires
        temporary_name(process, milliseconds) == temporary_name(other_process, other_milliseconds),
    ensures
        process == other_process,
        milliseconds == other_milliseconds,
{
    reveal_strlit("-");
    assert("-"@ =~= seq!['-']);
    lemma_decimal_digits(process);
    lemma_decimal_digits(other_process);
    let lead = "dep-analysis-"@;
    let name = temporary_name(process, milliseconds);
    let other = temporary_name(other_process, other_milliseconds);
    let a = decimal(milliseconds) + ".html"@;
    let b = decimal(other_milliseconds) + ".html"@;
    assert(name.skip(lead.len() as int) =~= decimal(process) + seq!['-'] + a);
    assert(other.skip(lead.len() as int) =~= decimal(other_process) + seq!['-'] + b);
    lemma_digits_before_dash(decimal(process), decimal(other_process), a, b);
    assert(a.take(a.len() - ".html"@.len()) =~= decimal(milliseconds));
    assert(b.take(b.len() - ".html"@.len()) =~= decimal(other_milliseconds));
    numerals_tell_numbers_apart(process, other_process);
    numerals_tell_numbers_apart(milliseconds, other_milliseconds);
}

/// A page's file in `directory`, named after a process and a time in milliseconds.
pub fn temporary_html_path(directory: &FilePath, process: u32, milliseconds: u128) -> (path:
    FilePath)
    ensures
        path@ == joined(
            directory@,
            encode_utf8(temporary_name(process as nat, milliseconds as nat)),
        ),
{
    let mut name = "dep-analysis-".to_owned();
    name.append(decimal_text(process as u128).as_str());
    name.append("-");
    name.append(decimal_text(milliseconds).as_str());
    name.append(".html");
    directory.join(&bytes_of(name.as_str()))
}

/// The JSON text of the dependencies as it is written: with a line break at its end.
pub fn json_document(json: String) -> (document: String)
    ensures
        document@ == json@.push('\n'),
{
    let mut document = json;
    document.push('\n');
    document
}

} // verus!
