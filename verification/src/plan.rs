//! The files that a text gives: one for each fragment, named by the
//! fragment's place in the text and by its command.

use crate::entities::{prepare_text, prepared};
use crate::fragments::{
    counts_agree, fails_with, fragment, fragment_at, fragment_bytes, fragment_ranges,
    is_range_list, lemma_fragment_is_text, openings, well_paired, ExtractError,
};
use crate::inspect::{command_of, get_command, FragmentError};
use crate::naming::{lemma_paths_differ, output_path, path_of};
use crate::source::Args;
use vstd::prelude::*;
use vstd::utf8::*;

verus! {

/// A file to write.
#[derive(Clone, Debug, PartialEq, Eq)]
pub struct OutputFile {
    /// Where the file is written.
    pub path: String,
    /// What is written to it: one fragment, with its two markers.
    pub content: String,
}

/// A file to write, as two sequences of characters.
pub struct FileView {
    /// The characters of the path.
    pub path: Seq<char>,
    /// The characters of the content.
    pub content: Seq<char>,
}

/// What one fragment gives: the file to write, or the reason why there is
/// none.
pub type Entry = Result<OutputFile, FragmentError>;

/// What one fragment gives, with the file as sequences of characters.
pub type EntryView = Result<FileView, FragmentError>;

impl View for OutputFile {
    type V = FileView;

    open spec fn view(&self) -> FileView {
        FileView { path: self.path@, content: self.content@ }
    }
}

/// What to do when a fragment gives no command name.
#[derive(Clone, Copy, Debug, PartialEq, Eq, Structural)]
pub enum FailurePolicy {
    /// Stop at the first such fragment.
    AbortOnError,
    /// Leave such a fragment out and go on with the next.
    SkipAndReport,
}

/// What fragment number `index` gives: the file to write, or the reason
/// why its command name cannot be read.
pub open spec fn planned_for(directory: Seq<char>, index: nat, content: Seq<char>) -> EntryView {
    match command_of(content) {
        Ok(command) => Ok(FileView { path: path_of(directory, index, command), content }),
        Err(reason) => Err(reason),
    }
}

/// What fragment `i` of a text gives.
pub open spec fn entry(text: Seq<char>, directory: Seq<char>, i: int) -> EntryView {
    planned_for(directory, i as nat, fragment(text, i))
}

/// A file to write or the reason why there is none, with the file as
/// sequences of characters.
pub open spec fn entry_view(planned: Entry) -> EntryView {
    match planned {
        Ok(file) => Ok(file@),
        Err(reason) => Err(reason),
    }
}

/// The entries of a plan, each with its file as sequences of characters.
pub open spec fn entry_views(entries: Seq<Entry>) -> Seq<EntryView> {
    entries.map_values(|planned: Entry| entry_view(planned))
}

/// `entries` is the plan for a text: entry `i` is what fragment `i` gives.
/// Under `SkipAndReport` there is an entry for every fragment. Under
/// `AbortOnError` the entries end with the first fragment that gives no
/// file.
pub open spec fn is_plan(
    entries: Seq<EntryView>,
    text: Seq<char>,
    directory: Seq<char>,
    policy: FailurePolicy,
) -> bool {
    &&& entries.len() <= openings(text).len()
    &&& forall|i: int| 0 <= i < entries.len() ==> #[trigger] entries[i] == entry(text, directory, i)
    &&& policy == FailurePolicy::SkipAndReport ==> entries.len() == openings(text).len()
    &&& policy == FailurePolicy::AbortOnError ==> {
        &&& forall|i: int| 0 <= i < entries.len() - 1 ==> #[trigger] entries[i] is Ok
        &&& entries.len() < openings(text).len() ==> entries.len() > 0 && entries.last() is Err
    }
}

/// Every fragment of the text gives a command name.
pub open spec fn all_named(text: Seq<char>) -> bool {
    forall|i: int| 0 <= i < openings(text).len() ==> #[trigger] command_of(fragment(text, i)) is Ok
}

/// The file for fragment number `index`, or the reason why its command name
/// cannot be read.
pub fn plan_file(directory: &str, index: usize, content: &str) -> (planned: Entry)
    ensures
        entry_view(planned) == planned_for(directory@, index as nat, content@),
{
    match get_command(content) {
        Ok(command) => {
            let path = output_path(directory, index, command.as_str());
            Ok(OutputFile { path, content: content.to_owned() })
        },
        Err(reason) => Err(reason),
    }
}

/// The plan for a text: for each of its fragments, in order, the file to
/// write or the reason why there is none. No plan is made of a text whose
/// markers cannot be paired.
pub fn plan_outputs(text: &str, directory: &str, policy: FailurePolicy) -> (planned: Result<
    Vec<Entry>,
    ExtractError,
>)
    ensures
        planned is Ok <==> well_paired(text@),
        match planned {
            Ok(entries) => is_plan(entry_views(entries@), text@, directory@, policy),
            Err(error) => fails_with(text@, error),
        },
        !counts_agree(text@) ==> planned matches Err(ExtractError::MarkerCountMismatch { .. }),
        planned matches Ok(entries) ==> (all_named(text@) ==> {
            &&& entries@.len() == openings(text@).len()
            &&& forall|i: int| 0 <= i < entries@.len() ==> #[trigger] entries@[i] is Ok
        }),
        planned matches Ok(entries) ==> forall|i: int|
            0 <= i < entries@.len() ==> (#[trigger] entries@[i] matches Ok(file) ==> encode_utf8(
                file.content@,
            ) == fragment_bytes(text@, i)),
{
    let ranges = match fragment_ranges(text) {
        Ok(ranges) => ranges,
        Err(error) => {
            return Err(error);
        },
    };
    let mut entries: Vec<Entry> = Vec::new();
    let mut halted = false;
    while entries.len() < ranges.len() && !halted
        invariant
            well_paired(text@),
            is_range_list(ranges@, text@),
            entries@.len() <= ranges@.len(),
            forall|i: int|
                0 <= i < entries@.len() ==> #[trigger] entry_views(entries@)[i] == entry(
                    text@,
                    directory@,
                    i,
                ),
            halted ==> policy == FailurePolicy::AbortOnError && entries@.len() > 0
                && entries@.last() is Err,
            policy == FailurePolicy::AbortOnError ==> forall|i: int|
                0 <= i < entries@.len() - 1 ==> #[trigger] entries@[i] is Ok,
            policy == FailurePolicy::AbortOnError && !halted ==> forall|i: int|
                0 <= i < entries@.len() ==> #[trigger] entries@[i] is Ok,
            forall|i: int|
                0 <= i < entries@.len() ==> (#[trigger] entries@[i] matches Ok(file)
                    ==> encode_utf8(file.content@) == fragment_bytes(text@, i)),
        decreases ranges@.len() - entries@.len() + (if halted { 0int } else { 1int }),
    {
        let index: usize = entries.len();
        let ghost before = entries@;
        let (start, end) = ranges[index];
        let content = fragment_at(text, Ghost(index as int), start, end);
        let planned = plan_file(directory, index, content);
        if planned.is_err() && policy == FailurePolicy::AbortOnError {
            halted = true;
        }
        entries.push(planned);
        proof {
            assert(entry_views(entries@) =~= entry_views(before).push(entry_view(planned)));
        }
    }
    proof {
        let views = entry_views(entries@);
        assert forall|i: int| 0 <= i < views.len() implies (#[trigger] views[i] is Ok)
            == (entries@[i] is Ok) by {}
        if all_named(text@) {
            assert forall|i: int| 0 <= i < entries@.len() implies #[trigger] entries@[i] is Ok by {
                assert(views[i] == entry(text@, directory@, i));
                assert(command_of(fragment(text@, i)) is Ok);
            }
        }
    }
    Ok(entries)
}

/// The plan for a run: the plan for the source text, with its HTML entities
/// decoded where the arguments ask for that, and with the files under the
/// output directory that the arguments name.
pub fn plan_run(args: &Args, source: &str, policy: FailurePolicy) -> (planned: Result<
    Vec<Entry>,
    ExtractError,
>)
    ensures
        planned is Ok <==> well_paired(prepared(source@, args.html_decode)),
        match planned {
            Ok(entries) => is_plan(
                entry_views(entries@),
                prepared(source@, args.html_decode),
                args.output@,
                policy,
            ),
            Err(error) => fails_with(prepared(source@, args.html_decode), error),
        },
{
    let text = prepare_text(source, args.html_decode);
    plan_outputs(text.as_str(), args.output.as_str(), policy)
}

/// There is one plan only: two plans for the same text, directory and
/// policy are the same.
pub proof fn lemma_plan_is_unique(
    first: Seq<EntryView>,
    second: Seq<EntryView>,
    text: Seq<char>,
    directory: Seq<char>,
    policy: FailurePolicy,
)
    requires
        is_plan(first, text, directory, policy),
        is_plan(second, text, directory, policy),
    ensures
        first == second,
{
    if first.len() < second.len() {
        assert(second[first.len() - 1] is Ok);
    }
    if second.len() < first.len() {
        assert(first[second.len() - 1] is Ok);
    }
}

/// Where every fragment gives a command name, the plan holds one file for
/// each pair of markers, whatever the policy: as many files as the text
/// has opening markers.
pub proof fn lemma_one_file_for_each_pair(
    entries: Seq<EntryView>,
    text: Seq<char>,
    directory: Seq<char>,
    policy: FailurePolicy,
)
    requires
        is_plan(entries, text, directory, policy),
        all_named(text),
    ensures
        entries.len() == openings(text).len(),
        forall|i: int| 0 <= i < entries.len() ==> #[trigger] entries[i] is Ok,
{
    assert forall|i: int| 0 <= i < entries.len() implies #[trigger] entries[i] is Ok by {
        assert(command_of(fragment(text, i)) is Ok);
    }
}

/// Each file of a plan holds its fragment byte for byte: the bytes of the
/// text from the first byte of the fragment's opening marker to the last
/// byte of its closing marker.
pub proof fn lemma_file_holds_fragment(
    entries: Seq<EntryView>,
    text: Seq<char>,
    directory: Seq<char>,
    policy: FailurePolicy,
    i: int,
)
    requires
        well_paired(text),
        is_plan(entries, text, directory, policy),
        0 <= i < entries.len(),
        entries[i] is Ok,
    ensures
        encode_utf8(entries[i]->Ok_0.content) == fragment_bytes(text, i),
{
    lemma_fragment_is_text(text, i);
}

/// No two files of a plan share a path: each fragment is written to a file
/// of its own.
pub proof fn lemma_no_path_twice(
    entries: Seq<EntryView>,
    text: Seq<char>,
    directory: Seq<char>,
    policy: FailurePolicy,
    i: int,
    j: int,
)
    requires
        is_plan(entries, text, directory, policy),
        0 <= i < j < entries.len(),
        entries[i] is Ok,
        entries[j] is Ok,
    ensures
        entries[i]->Ok_0.path != entries[j]->Ok_0.path,
{
    lemma_paths_differ(
        directory,
        i as nat,
        command_of(fragment(text, i))->Ok_0,
        j as nat,
        command_of(fragment(text, j))->Ok_0,
    );
}

} // verus!
