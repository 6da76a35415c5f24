use linegrep::config::Config;
use linegrep::error::SearchError;
use linegrep::pipeline::{Pipeline, Reply, Request, Step};
use linegrep::resolver::{traversal_for, Entry, EntryKind};

fn argv(words: &[&str]) -> Vec<String> {
    words.iter().map(|w| w.to_string()).collect()
}

fn file(path: &str, depth: usize) -> Entry {
    Entry {
        path: path.to_string(),
        depth,
        kind: EntryKind::File,
    }
}

fn directory(path: &str, depth: usize) -> Entry {
    Entry {
        path: path.to_string(),
        depth,
        kind: EntryKind::Directory,
    }
}

fn walk(path: &str, recursive: bool) -> Request {
    Request::Walk {
        path: path.to_string(),
        traversal: traversal_for(recursive),
    }
}

fn read(path: &str) -> Request {
    Request::Read {
        path: path.to_string(),
    }
}

fn text(contents: &str) -> Reply {
    Reply::Contents(Some(contents.to_string()))
}

#[test]
fn a_run_without_paths_ends_at_once() {
    let (_, first) = Pipeline::new(Config::new(&argv(&["grep", "hello"])));
    assert_eq!(first, Request::Finish { failed: false });
}

#[test]
fn a_file_is_walked_read_and_searched() {
    let config = Config::new(&argv(&["grep", "-i", "-n", "hello", "a.txt"]));
    let (mut run, first) = Pipeline::new(config);
    assert_eq!(first, walk("a.txt", false));

    let step = run.advance(Reply::Walked(vec![file("a.txt", 0)]));
    assert_eq!(
        step,
        Step {
            lines: Vec::new(),
            error: None,
            next: read("a.txt"),
        }
    );

    let step = run.advance(text("Hello\nworld\nHELLO again\n"));
    assert_eq!(
        step,
        Step {
            lines: vec!["1: Hello".to_string(), "3: HELLO again".to_string()],
            error: None,
            next: Request::Finish { failed: false },
        }
    );
}

#[test]
fn the_inverted_run_writes_the_other_line() {
    let config = Config::new(&argv(&["grep", "-i", "-n", "-v", "hello", "a.txt"]));
    let (mut run, _) = Pipeline::new(config);
    run.advance(Reply::Walked(vec![file("a.txt", 0)]));
    let step = run.advance(text("Hello\nworld\nHELLO again\n"));
    assert_eq!(step.lines, vec!["2: world".to_string()]);
    assert_eq!(step.next, Request::Finish { failed: false });
}

#[test]
fn a_missing_path_is_reported_and_the_run_goes_on() {
    let config = Config::new(&argv(&["grep", "match", "missing.txt", "real.txt"]));
    let (mut run, first) = Pipeline::new(config);
    assert_eq!(first, walk("missing.txt", false));

    let step = run.advance(Reply::Walked(Vec::new()));
    assert_eq!(step.lines, Vec::<String>::new());
    assert_eq!(
        step.error,
        Some(SearchError::PathNotFound("missing.txt".to_string()))
    );
    assert_eq!(step.next, walk("real.txt", false));

    let step = run.advance(Reply::Walked(vec![file("real.txt", 0)]));
    assert_eq!(step.error, None);
    assert_eq!(step.next, read("real.txt"));

    let step = run.advance(text("no\na match here\n"));
    assert_eq!(step.lines, vec!["a match here".to_string()]);
    assert_eq!(step.error, None);
    assert_eq!(step.next, Request::Finish { failed: true });
}

#[test]
fn an_unreadable_file_is_reported_and_the_run_goes_on() {
    let config = Config::new(&argv(&["grep", "-f", "x", "d"]));
    let (mut run, _) = Pipeline::new(config);
    let step = run.advance(Reply::Walked(vec![
        directory("d", 0),
        file("d/blob.bin", 1),
        file("d/notes.txt", 1),
    ]));
    assert_eq!(step.next, read("d/blob.bin"));

    let step = run.advance(Reply::Contents(None));
    assert_eq!(step.lines, Vec::<String>::new());
    assert_eq!(
        step.error,
        Some(SearchError::UnreadableFile("d/blob.bin".to_string()))
    );
    assert_eq!(step.next, read("d/notes.txt"));

    let step = run.advance(text("x marks the spot"));
    assert_eq!(step.lines, vec!["d/notes.txt: x marks the spot".to_string()]);
    assert_eq!(step.next, Request::Finish { failed: true });
}

#[test]
fn paths_are_walked_in_the_order_given_and_as_often() {
    let config = Config::new(&argv(&["grep", "x", "b", "a", "b"]));
    let (mut run, first) = Pipeline::new(config);
    assert_eq!(first, walk("b", false));
    let step = run.advance(Reply::Walked(vec![directory("b", 0)]));
    assert_eq!(step.next, walk("a", false));
    let step = run.advance(Reply::Walked(vec![directory("a", 0)]));
    assert_eq!(step.next, walk("b", false));
    let step = run.advance(Reply::Walked(vec![directory("b", 0)]));
    assert_eq!(step.next, Request::Finish { failed: false });
}

#[test]
fn the_files_of_a_path_are_read_before_the_next_path_is_walked() {
    let config = Config::new(&argv(&["grep", "-n", "-f", "x", "d", "e.txt"]));
    let (mut run, _) = Pipeline::new(config);
    let step = run.advance(Reply::Walked(vec![
        directory("d", 0),
        file("d/1", 1),
        file("d/2", 1),
    ]));
    assert_eq!(step.next, read("d/1"));
    let step = run.advance(text("x\n"));
    assert_eq!(step.lines, vec!["d/1: 1: x".to_string()]);
    assert_eq!(step.next, read("d/2"));
    let step = run.advance(text("-\nx\n"));
    assert_eq!(step.lines, vec!["d/2: 2: x".to_string()]);
    assert_eq!(step.next, walk("e.txt", false));
    let step = run.advance(Reply::Walked(vec![file("e.txt", 0)]));
    assert_eq!(step.next, read("e.txt"));
    let step = run.advance(text("x"));
    assert_eq!(step.lines, vec!["e.txt: 1: x".to_string()]);
    assert_eq!(step.next, Request::Finish { failed: false });
}

#[test]
fn a_recursive_run_asks_for_the_whole_tree() {
    let config = Config::new(&argv(&["grep", "-r", "x", "d"]));
    let (mut run, first) = Pipeline::new(config);
    assert_eq!(first, walk("d", true));
    let step = run.advance(Reply::Walked(vec![
        directory("d", 0),
        directory("d/sub", 1),
        file("d/sub/deep.txt", 2),
        file("d/top.txt", 1),
    ]));
    assert_eq!(step.next, read("d/sub/deep.txt"));
    let step = run.advance(text(""));
    assert_eq!(step.next, read("d/top.txt"));
}

#[test]
fn a_run_without_recursion_passes_over_what_lies_deeper() {
    let config = Config::new(&argv(&["grep", "x", "d"]));
    let (mut run, _) = Pipeline::new(config);
    let step = run.advance(Reply::Walked(vec![
        directory("d", 0),
        directory("d/sub", 1),
        file("d/sub/deep.txt", 2),
        file("d/top.txt", 1),
    ]));
    assert_eq!(step.next, read("d/top.txt"));
}

#[test]
fn a_reply_that_was_not_asked_for_changes_nothing() {
    let config = Config::new(&argv(&["grep", "x", "a.txt"]));
    let (mut run, first) = Pipeline::new(config);
    assert_eq!(first, walk("a.txt", false));
    let step = run.advance(text("x"));
    assert_eq!(
        step,
        Step {
            lines: Vec::new(),
            error: None,
            next: walk("a.txt", false),
        }
    );
    run.advance(Reply::Walked(vec![file("a.txt", 0)]));
    let step = run.advance(Reply::Walked(Vec::new()));
    assert_eq!(
        step,
        Step {
            lines: Vec::new(),
            error: None,
            next: read("a.txt"),
        }
    );
}

#[test]
fn a_finished_run_stays_finished() {
    let config = Config::new(&argv(&["grep", "x", "missing"]));
    let (mut run, _) = Pipeline::new(config);
    let step = run.advance(Reply::Walked(Vec::new()));
    assert_eq!(step.next, Request::Finish { failed: true });
    let step = run.advance(text("x"));
    assert_eq!(step.lines, Vec::<String>::new());
    assert_eq!(step.next, Request::Finish { failed: true });
    let step = run.advance(Reply::Walked(Vec::new()));
    assert_eq!(step.error, None);
    assert_eq!(step.next, Request::Finish { failed: true });
}
