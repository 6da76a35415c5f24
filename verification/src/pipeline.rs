//! The course of a run.
//!
//! A run walks the paths to search in the order given, reads each file that a
//! path stands for, and searches it. Walking and reading happen outside this
//! library. The library says what is to be done next, is told what came of
//! it, and says what is to be written out. A path that is not there and a
//! file that holds no text are reported and passed over; the run goes on with
//! what is left and ends as failed.

use vstd::prelude::*;
use crate::config::Config;
use crate::error::{SearchError, SearchErrorView};
use crate::resolver::{has_root, resolve, selected, traversal_for, traversal_of, Entry, Traversal};
use crate::search::{is_search_output, search_text};
use crate::text::texts;

verus! {

/// What is to be done outside the library next.
#[derive(Debug, PartialEq, Eq)]
pub enum Request {
    /// Walk from `path` as `traversal` says, and tell what was met.
    Walk { path: String, traversal: Traversal },
    /// Read the file `path` as text, and tell what it holds.
    Read { path: String },
    /// Nothing is left to do. The run has failed if something was reported
    /// as an error on the way.
    Finish { failed: bool },
}

/// A `Request` as plain values.
pub enum RequestView {
    Walk { path: Seq<char>, traversal: Traversal },
    Read { path: Seq<char> },
    Finish { failed: bool },
}

impl View for Request {
    type V = RequestView;

    open spec fn view(&self) -> RequestView {
        match self {
            Request::Walk { path, traversal } => RequestView::Walk {
                path: path@,
                traversal: *traversal,
            },
            Request::Read { path } => RequestView::Read { path: path@ },
            Request::Finish { failed } => RequestView::Finish { failed: *failed },
        }
    }
}

/// What came of a request.
#[derive(Debug, PartialEq, Eq)]
pub enum Reply {
    /// The entries that a walk met, in the order of the walk; none where the
    /// path to walk from is not there.
    Walked(Vec<Entry>),
    /// The text of a file, or nothing where the file holds no text.
    Contents(Option<String>),
}

/// What one reply leads to.
#[derive(Debug, PartialEq, Eq)]
pub struct Step {
    /// The lines to write out, in order.
    pub lines: Vec<String>,
    /// The failure to report, if there is one.
    pub error: Option<SearchError>,
    /// What is to be done next.
    pub next: Request,
}

/// A run between two requests.
pub struct Pipeline {
    config: Config,
    awaited: Request,
    files: Vec<String>,
    next_file: usize,
    next_path: usize,
    failed: bool,
}

/// A `Pipeline` as plain values.
pub struct PipelineView {
    /// The options of the run.
    pub config: Config,
    /// The request that was made last and is not answered yet.
    pub awaited: RequestView,
    /// The files still to read for the path that was walked last, behind the
    /// awaited one.
    pub pending: Seq<Seq<char>>,
    /// The paths still to walk, behind the awaited one.
    pub remaining: Seq<Seq<char>>,
    /// Whether a failure was reported.
    pub failed: bool,
}

/// What is asked for when `pending` files are still to read and `remaining`
/// paths still to walk: the first file, else the first path, else the end.
pub open spec fn upcoming(
    config: Config,
    pending: Seq<Seq<char>>,
    remaining: Seq<Seq<char>>,
    failed: bool,
) -> RequestView {
    if pending.len() > 0 {
        RequestView::Read { path: pending[0] }
    } else if remaining.len() > 0 {
        RequestView::Walk {
            path: remaining[0],
            traversal: traversal_of(config.recursive_dir_search),
        }
    } else {
        RequestView::Finish { failed }
    }
}

/// The run once it has asked for what comes next.
pub open spec fn asking(
    config: Config,
    pending: Seq<Seq<char>>,
    remaining: Seq<Seq<char>>,
    failed: bool,
) -> PipelineView {
    PipelineView {
        config,
        awaited: upcoming(config, pending, remaining, failed),
        pending: if pending.len() > 0 {
            pending.drop_first()
        } else {
            pending
        },
        remaining: if pending.len() == 0 && remaining.len() > 0 {
            remaining.drop_first()
        } else {
            remaining
        },
        failed,
    }
}

/// The failure that a reply makes known, if it does.
pub open spec fn failure_of(awaited: RequestView, reply: Reply) -> Option<SearchErrorView> {
    match (awaited, reply) {
        (RequestView::Walk { path, .. }, Reply::Walked(entries)) => if has_root(entries@) {
            None
        } else {
            Some(SearchErrorView::PathNotFound(path))
        },
        (RequestView::Read { path }, Reply::Contents(None)) => Some(
            SearchErrorView::UnreadableFile(path),
        ),
        _ => None,
    }
}

/// Whether a reply answers the request that is awaited.
pub open spec fn answers(awaited: RequestView, reply: Reply) -> bool {
    match (awaited, reply) {
        (RequestView::Walk { .. }, Reply::Walked(_)) => true,
        (RequestView::Read { .. }, Reply::Contents(_)) => true,
        _ => false,
    }
}

/// The run after a reply. A reply to a walk gives the files to read before
/// any further path is walked; a reply to a read leaves what is still to be
/// done as it is. A failure is remembered. A reply that answers no awaited
/// request changes nothing.
pub open spec fn after(state: PipelineView, reply: Reply) -> PipelineView {
    let failed = state.failed || failure_of(state.awaited, reply) is Some;
    match (state.awaited, reply) {
        (RequestView::Walk { .. }, Reply::Walked(entries)) => asking(
            state.config,
            if has_root(entries@) {
                selected(entries@, state.config.recursive_dir_search)
            } else {
                Seq::empty()
            },
            state.remaining,
            failed,
        ),
        (RequestView::Read { .. }, Reply::Contents(_)) => asking(
            state.config,
            state.pending,
            state.remaining,
            failed,
        ),
        _ => state,
    }
}

/// Whether `lines` is what a reply gives to write out: for the text of a
/// file its reported lines under the path of the file, else nothing.
pub open spec fn is_output(state: PipelineView, reply: Reply, lines: Seq<Seq<char>>) -> bool {
    match (state.awaited, reply) {
        (RequestView::Read { path }, Reply::Contents(Some(text))) => is_search_output(
            lines,
            state.config,
            path,
            text@,
        ),
        _ => lines.len() == 0,
    }
}

/// The paths that a run has still to walk, the awaited one included.
pub open spec fn paths_left(state: PipelineView) -> nat {
    if state.awaited is Walk {
        state.remaining.len() + 1
    } else {
        state.remaining.len()
    }
}

/// The files that a run has still to read for the path walked last, the
/// awaited one included.
pub open spec fn files_left(state: PipelineView) -> nat {
    if state.awaited is Read {
        state.pending.len() + 1
    } else {
        state.pending.len()
    }
}

/// Every reply to the awaited request brings a run nearer to its end,
/// whether it tells of a failure or not: a path less is left to walk, or as
/// many paths and a file less to read.
pub proof fn lemma_reply_brings_nearer(state: PipelineView, reply: Reply)
    requires
        answers(state.awaited, reply),
    ensures
        paths_left(after(state, reply)) < paths_left(state) || (paths_left(after(state, reply))
            == paths_left(state) && files_left(after(state, reply)) < files_left(state)),
{
}

/// A run that has come to its end stays there.
pub proof fn lemma_end_is_final(state: PipelineView, reply: Reply)
    requires
        state.awaited is Finish,
    ensures
        after(state, reply) == state,
{
}

fn same_request(request: &Request) -> (copy: Request)
    ensures
        copy@ == request@,
{
    match request {
        Request::Walk { path, traversal } => Request::Walk {
            path: path.clone(),
            traversal: *traversal,
        },
        Request::Read { path } => Request::Read { path: path.clone() },
        Request::Finish { failed } => Request::Finish { failed: *failed },
    }
}

impl View for Pipeline {
    type V = PipelineView;

    closed spec fn view(&self) -> PipelineView {
        PipelineView {
            config: self.config,
            awaited: self.awaited@,
            pending: self.pending(),
            remaining: self.remaining(),
            failed: self.failed,
        }
    }
}

impl Pipeline {
    spec fn pending(&self) -> Seq<Seq<char>> {
        if self.next_file <= self.files@.len() {
            texts(self.files@).skip(self.next_file as int)
        } else {
            Seq::empty()
        }
    }

    spec fn remaining(&self) -> Seq<Seq<char>> {
        if self.next_path <= self.config.file_paths@.len() {
            texts(self.config.file_paths@).skip(self.next_path as int)
        } else {
            Seq::empty()
        }
    }

    /// Makes the next request: for the next file to read, else for the next
    /// path to walk, else for the end.
    fn ask(&mut self)
        ensures
            final(self)@ == asking(
                old(self).config,
                old(self).pending(),
                old(self).remaining(),
                old(self).failed,
            ),
    {
        if self.next_file < self.files.len() {
            let path = self.files[self.next_file].clone();
            self.awaited = Request::Read { path };
            self.next_file = self.next_file + 1;
            assert(self.pending() =~= old(self).pending().drop_first());
        } else if self.next_path < self.config.file_paths.len() {
            let path = self.config.file_paths[self.next_path].clone();
            let traversal = traversal_for(self.config.recursive_dir_search);
            self.awaited = Request::Walk { path, traversal };
            self.next_path = self.next_path + 1;
            assert(self.remaining() =~= old(self).remaining().drop_first());
            assert(self.pending() =~= old(self).pending());
        } else {
            self.awaited = Request::Finish { failed: self.failed };
            assert(old(self).pending() =~= Seq::<Seq<char>>::empty());
            assert(old(self).remaining() =~= Seq::<Seq<char>>::empty());
        }
    }

    /// Begins a run with the options `config`, and makes its first request.
    pub fn new(config: Config) -> (started: (Pipeline, Request))
        ensures
            started.0@ == asking(config, Seq::empty(), config@.file_paths, false),
            started.1@ == started.0@.awaited,
    {
        let mut pipeline = Pipeline {
            config,
            awaited: Request::Finish { failed: false },
            files: Vec::new(),
            next_file: 0,
            next_path: 0,
            failed: false,
        };
        assert(pipeline.pending() =~= Seq::<Seq<char>>::empty());
        assert(pipeline.remaining() =~= config@.file_paths);
        pipeline.ask();
        let first = same_request(&pipeline.awaited);
        (pipeline, first)
    }

    /// Takes the reply to the awaited request, and says what to write out,
    /// what to report, and what to do next.
    pub fn advance(&mut self, reply: Reply) -> (step: Step)
        ensures
            final(self)@ == after(old(self)@, reply),
            is_output(old(self)@, reply, texts(step.lines@)),
            match step.error {
                Some(error) => failure_of(old(self)@.awaited, reply) == Some(error@),
                None => failure_of(old(self)@.awaited, reply) is None,
            },
            step.next@ == final(self)@.awaited,
    {
        let mut lines: Vec<String> = Vec::new();
        let mut error: Option<SearchError> = None;
        let mut answered = false;
        assert(texts(lines@) =~= Seq::<Seq<char>>::empty());
        match &reply {
            Reply::Walked(entries) => {
                if let Request::Walk { path, .. } = &self.awaited {
                    let recursive = self.config.recursive_dir_search;
                    match resolve(path.as_str(), entries.as_slice(), recursive) {
                        Ok(files) => {
                            self.files = files;
                        },
                        Err(failure) => {
                            self.files = Vec::new();
                            self.failed = true;
                            error = Some(failure);
                        },
                    }
                    self.next_file = 0;
                    answered = true;
                    assert(self.pending() =~= texts(self.files@));
                }
            },
            Reply::Contents(contents) => {
                if let Request::Read { path } = &self.awaited {
                    match contents {
                        Some(text) => {
                            lines = search_text(&self.config, path.as_str(), text.as_str());
                        },
                        None => {
                            self.failed = true;
                            error = Some(SearchError::UnreadableFile(path.clone()));
                        },
                    }
                    answered = true;
                }
            },
        }
        if answered {
            self.ask();
        }
        let next = same_request(&self.awaited);
        Step { lines, error, next }
    }
}

} // verus!
