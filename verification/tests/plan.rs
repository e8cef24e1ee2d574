use pjd_split::fragments::ExtractError;
use pjd_split::inspect::FragmentError;
use pjd_split::plan::{plan_file, plan_outputs, plan_run, FailurePolicy, OutputFile};
use pjd_split::source::Args;
use std::path::Path;

fn file(path: &str, content: &str) -> OutputFile {
    OutputFile { path: String::from(path), content: String::from(content) }
}

#[test]
fn one_fragment_gives_one_file() {
    let text = "<pjd><command>build</command></pjd>";
    let plan = plan_outputs(text, "out/", FailurePolicy::AbortOnError).unwrap();
    assert_eq!(plan.len(), 1);
    let written = plan[0].clone().unwrap();
    assert_eq!(Path::new(&written.path), Path::new("out/00_build"));
    assert_eq!(written.content, "<pjd><command>build</command></pjd>");
}

#[test]
fn one_fragment_gives_one_file_path_as_text() {
    let text = "<pjd><command>build</command></pjd>";
    let plan = plan_outputs(text, "out", FailurePolicy::AbortOnError);
    assert_eq!(plan, Ok(vec![Ok(file("out/00_build", "<pjd><command>build</command></pjd>"))]));
}

#[test]
fn two_fragments_give_two_files() {
    let text = "<pjd><command>run</command></pjd><pjd><command>stop</command></pjd>";
    let plan = plan_outputs(text, "out/", FailurePolicy::AbortOnError).unwrap();
    assert_eq!(plan.len(), 2);
    let first = plan[0].clone().unwrap();
    let second = plan[1].clone().unwrap();
    assert_eq!(Path::new(&first.path), Path::new("out/00_run"));
    assert_eq!(first.content, "<pjd><command>run</command></pjd>");
    assert_eq!(Path::new(&second.path), Path::new("out/01_stop"));
    assert_eq!(second.content, "<pjd><command>stop</command></pjd>");
}

#[test]
fn two_fragments_give_two_files_paths_as_text() {
    let text = "<pjd><command>run</command></pjd> and <pjd><command>stop</command></pjd>";
    let plan = plan_outputs(text, "out", FailurePolicy::AbortOnError);
    assert_eq!(
        plan,
        Ok(vec![
            Ok(file("out/00_run", "<pjd><command>run</command></pjd>")),
            Ok(file("out/01_stop", "<pjd><command>stop</command></pjd>")),
        ])
    );
}

#[test]
fn unmatched_opening_marker_gives_no_plan() {
    let text = "<pjd><command>build</command>";
    assert_eq!(
        plan_outputs(text, "out", FailurePolicy::AbortOnError),
        Err(ExtractError::MarkerCountMismatch { opening: 1, closing: 0 })
    );
    assert_eq!(
        plan_outputs(text, "out", FailurePolicy::SkipAndReport),
        Err(ExtractError::MarkerCountMismatch { opening: 1, closing: 0 })
    );
}

#[test]
fn reversed_pair_gives_no_plan() {
    assert_eq!(
        plan_outputs("</pjd> <pjd>", "out", FailurePolicy::SkipAndReport),
        Err(ExtractError::ReversedPair { index: 0 })
    );
}

#[test]
fn text_without_fragments_gives_an_empty_plan() {
    assert_eq!(plan_outputs("nothing", "out", FailurePolicy::AbortOnError), Ok(vec![]));
}

#[test]
fn as_many_files_as_pairs_of_markers() {
    let mut text = String::new();
    let mut count = 0;
    while count < 120 {
        text.push_str("<pjd><command>c</command></pjd>\n");
        count += 1;
    }
    let plan = plan_outputs(&text, "d", FailurePolicy::AbortOnError).unwrap();
    assert_eq!(plan.len(), 120);
    assert_eq!(plan[9], Ok(file("d/09_c", "<pjd><command>c</command></pjd>")));
    assert_eq!(plan[10], Ok(file("d/10_c", "<pjd><command>c</command></pjd>")));
    assert_eq!(plan[119], Ok(file("d/119_c", "<pjd><command>c</command></pjd>")));
}

#[test]
fn file_content_is_the_fragment_with_its_markers() {
    let text = "x<pjd>\n <command>a</command>\u{e9}\n</pjd>y";
    let plan = plan_outputs(text, "out", FailurePolicy::AbortOnError).unwrap();
    assert_eq!(plan.len(), 1);
    let written = plan[0].clone().unwrap();
    assert_eq!(written.content.as_bytes(), &text.as_bytes()[1..text.len() - 1]);
    assert_eq!(written.path, "out/00_a");
}

#[test]
fn abort_stops_at_the_first_fragment_without_a_command() {
    let text = "<pjd><command>a</command></pjd><pjd><x/></pjd><pjd><command>c</command></pjd>";
    let plan = plan_outputs(text, "out", FailurePolicy::AbortOnError);
    assert_eq!(
        plan,
        Ok(vec![
            Ok(file("out/00_a", "<pjd><command>a</command></pjd>")),
            Err(FragmentError::MissingCommandElement),
        ])
    );
}

#[test]
fn skip_goes_on_after_a_fragment_without_a_command() {
    let text = "<pjd><command>a</command></pjd><pjd><x/></pjd><pjd><command>c</command></pjd>";
    let plan = plan_outputs(text, "out", FailurePolicy::SkipAndReport);
    assert_eq!(
        plan,
        Ok(vec![
            Ok(file("out/00_a", "<pjd><command>a</command></pjd>")),
            Err(FragmentError::MissingCommandElement),
            Ok(file("out/02_c", "<pjd><command>c</command></pjd>")),
        ])
    );
}

#[test]
fn each_reason_for_a_missing_file() {
    let text = "<pjd><a></pjd><pjd><a/></pjd><pjd><command/></pjd></pjd><pjd>";
    let plan = plan_outputs(text, "out", FailurePolicy::SkipAndReport);
    assert_eq!(
        plan,
        Ok(vec![
            Err(FragmentError::ParseError),
            Err(FragmentError::MissingCommandElement),
            Err(FragmentError::EmptyCommandText),
            Err(FragmentError::ParseError),
        ])
    );
}

#[test]
fn file_for_one_fragment() {
    assert_eq!(
        plan_file("out", 3, "<pjd><command>go</command></pjd>"),
        Ok(file("out/03_go", "<pjd><command>go</command></pjd>"))
    );
    assert_eq!(plan_file("out", 3, "<pjd>"), Err(FragmentError::ParseError));
}

#[test]
fn run_decodes_entities_when_asked() {
    let source = "&lt;pjd&gt;&lt;command&gt;build&lt;/command&gt;&lt;/pjd&gt;";
    let mut args = Args {
        html_decode: true,
        stdin: true,
        output: String::from("out"),
        input: None,
    };
    assert_eq!(
        plan_run(&args, source, FailurePolicy::AbortOnError),
        Ok(vec![Ok(file("out/00_build", "<pjd><command>build</command></pjd>"))])
    );
    args.html_decode = false;
    assert_eq!(plan_run(&args, source, FailurePolicy::AbortOnError), Ok(vec![]));
}

#[test]
fn run_puts_files_under_the_output_directory() {
    let args = Args {
        html_decode: false,
        stdin: false,
        output: String::from("."),
        input: Some(String::from("in.txt")),
    };
    assert_eq!(
        plan_run(&args, "<pjd><command>run</command></pjd>", FailurePolicy::AbortOnError),
        Ok(vec![Ok(file("./00_run", "<pjd><command>run</command></pjd>"))])
    );
}

#[test]
fn no_two_files_share_a_path() {
    let mut text = String::new();
    let mut count = 0;
    while count < 111 {
        text.push_str("<pjd><command>1_c</command></pjd>");
        count += 1;
    }
    let plan = plan_outputs(&text, "d", FailurePolicy::SkipAndReport).unwrap();
    let paths: Vec<String> = plan.iter().map(|entry| entry.clone().unwrap().path).collect();
    assert_eq!(paths.len(), 111);
    for first in 0..paths.len() {
        for second in 0..first {
            assert_ne!(paths[first], paths[second]);
        }
    }
    assert_eq!(paths[1], "d/01_1_c");
    assert_eq!(paths[11], "d/11_1_c");
}
