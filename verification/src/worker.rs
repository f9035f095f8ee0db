//! One turn of the renderer: what it shows, what it says, and what follows.

use vstd::prelude::*;
use crate::chars::{has_text, opt_text, same_text, texts};
use crate::book::{ChapterView, Chunk};
use crate::pack::{turn_of, WorkerTurn, GC_EVERY};
use crate::render::{chunk_of, chunks_in, opt_target, task_of, Disk, Place, Target, TargetView, Task, TaskView};
use crate::state::{Session, SessionView, Stall};

verus! {

/// What a chunk takes.
#[derive(Debug, Clone, Copy, PartialEq, Eq, Structural)]
pub enum RenderStep {
    /// Nothing: it is there.
    There,
    /// Nothing: the chapter has no such chunk.
    NoChunk,
    /// A silence: there is nothing to pronounce.
    Silence,
    /// Speech.
    Speak,
}

/// What chunk `i` of some chunks takes, `there` saying whether it is on the disk.
pub fn render_step(chunks: &[Chunk], i: usize, there: bool) -> (r: RenderStep)
    ensures
        r == if there {
            RenderStep::There
        } else if i >= chunks@.len() {
            RenderStep::NoChunk
        } else if chunks@[i as int].silent {
            RenderStep::Silence
        } else {
            RenderStep::Speak
        },
{
    if there {
        RenderStep::There
    } else if i >= chunks.len() {
        RenderStep::NoChunk
    } else if chunks[i].silent {
        RenderStep::Silence
    } else {
        RenderStep::Speak
    }
}

/// The session while a task is done. Of what is done for a book that is not
/// loaded, the chapter is not shown.
pub open spec fn begun_of(s: SessionView, t: TaskView) -> SessionView {
    match t {
        TaskView::Playhead(_) => SessionView { status: "rendering"@, ..s },
        TaskView::Lookahead(_) => SessionView { status: "rendering"@, prerender: None, ..s },
        TaskView::Queued(c, _) => SessionView { status: "queued"@, prerender: Some(c), ..s },
        TaskView::Elsewhere(_) => SessionView { status: "queued"@, ..s },
        TaskView::Buffered => SessionView { status: "ready"@, prerender: None, ..s },
        TaskView::Ahead(c, _) => SessionView {
            status: "prerendering"@,
            prerender: Some(c),
            ..s
        },
        TaskView::Spare => s,
    }
}

/// The session while there is nothing to do but what `found` names.
pub open spec fn idling_of(s: SessionView, found: Option<TargetView>) -> SessionView {
    match found {
        Some(t) => SessionView { status: "prerendering"@, prerender: Some(t.chapter), ..s },
        None => SessionView { status: "ready"@, prerender: None, ..s },
    }
}

impl Session {
    /// Show that a task is begun.
    pub fn begin(&mut self, t: &Task)
        ensures
            final(self)@ == begun_of(old(self)@, t@),
    {
        match t {
            Task::Playhead(_) => {
                self.show("rendering", self.prerender);
            },
            Task::Lookahead(_) => {
                self.show("rendering", None);
            },
            Task::Queued(c, _) => {
                self.show("queued", Some(*c));
            },
            Task::Elsewhere(_) => {
                self.show("queued", self.prerender);
            },
            Task::Buffered => {
                self.show("ready", None);
            },
            Task::Ahead(c, _) => {
                self.show("prerendering", Some(*c));
            },
            Task::Spare => {},
        }
        assert(self@ =~= begun_of(old(self)@, t@));
    }

    /// Show what is done when there is nothing to do.
    pub fn idle(&mut self, found: &Option<Target>)
        ensures
            final(self)@ == idling_of(old(self)@, opt_target(*found)),
    {
        match found {
            Some(t) => {
                self.show("prerendering", Some(t.chapter));
            },
            None => {
                self.show("ready", None);
            },
        }
        assert(self@ =~= idling_of(old(self)@, opt_target(*found)));
    }
}

/// What is said after a chunk.
#[derive(Debug, PartialEq, Eq)]
pub struct RenderEvent {
    /// The book, where it is not the loaded one.
    pub key: Option<String>,
    /// Whether the chapter being read is complete by it.
    pub complete: bool,
    pub chapter: usize,
    /// How far the chapter is.
    pub render_idx: usize,
    /// How many chunks it has.
    pub n: usize,
    pub status: String,
}

/// What a [`RenderEvent`] says.
#[verifier::ext_equal]
pub struct RenderEventView {
    pub key: Option<Seq<char>>,
    pub complete: bool,
    pub chapter: usize,
    pub render_idx: usize,
    pub n: usize,
    pub status: Seq<char>,
}

impl View for RenderEvent {
    type V = RenderEventView;

    open spec fn view(&self) -> RenderEventView {
        RenderEventView {
            key: opt_text(self.key),
            complete: self.complete,
            chapter: self.chapter,
            render_idx: self.render_idx,
            n: self.n,
            status: self.status@,
        }
    }
}

/// What is said after a task: `reading` is the chapter being read, `next` how far
/// the hint is in it, and `n` how many chunks the task's chapter has. Nothing is
/// said where nothing was rendered.
pub open spec fn event_of(t: TaskView, reading: usize, next: usize, n: usize) -> Option<
    RenderEventView,
> {
    match t {
        TaskView::Playhead(i) => Some(
            RenderEventView {
                key: None,
                complete: false,
                chapter: reading,
                render_idx: (i + 1) as usize,
                n,
                status: "rendering"@,
            },
        ),
        TaskView::Lookahead(_) => Some(
            RenderEventView {
                key: None,
                complete: next >= n,
                chapter: reading,
                render_idx: next,
                n,
                status: "rendering"@,
            },
        ),
        TaskView::Queued(c, i) => Some(
            RenderEventView {
                key: None,
                complete: false,
                chapter: c,
                render_idx: (i + 1) as usize,
                n,
                status: "queued"@,
            },
        ),
        TaskView::Elsewhere(t) => Some(
            RenderEventView {
                key: Some(t.key),
                complete: false,
                chapter: t.chapter,
                render_idx: (t.chunk + 1) as usize,
                n,
                status: "queued"@,
            },
        ),
        TaskView::Ahead(c, i) => Some(
            RenderEventView {
                key: None,
                complete: false,
                chapter: c,
                render_idx: (i + 1) as usize,
                n,
                status: "prerendering"@,
            },
        ),
        _ => None,
    }
}

/// The last chunk that a count can follow.
pub open spec fn can_follow(t: TaskView) -> bool {
    match t {
        TaskView::Playhead(i) => i < usize::MAX,
        TaskView::Queued(_, i) => i < usize::MAX,
        TaskView::Elsewhere(t) => t.chunk < usize::MAX,
        TaskView::Ahead(_, i) => i < usize::MAX,
        _ => true,
    }
}

/// What is said after a task.
pub fn render_event(t: &Task, reading: usize, next: usize, n: usize) -> (r: Option<RenderEvent>)
    requires
        can_follow(t@),
    ensures
        match r {
            Some(e) => event_of(t@, reading, next, n) == Some(e@),
            None => event_of(t@, reading, next, n) is None,
        },
{
    match t {
        Task::Playhead(i) => Some(
            RenderEvent {
                key: None,
                complete: false,
                chapter: reading,
                render_idx: *i + 1,
                n,
                status: "rendering".to_owned(),
            },
        ),
        Task::Lookahead(_) => Some(
            RenderEvent {
                key: None,
                complete: next >= n,
                chapter: reading,
                render_idx: next,
                n,
                status: "rendering".to_owned(),
            },
        ),
        Task::Queued(c, i) => Some(
            RenderEvent {
                key: None,
                complete: false,
                chapter: *c,
                render_idx: *i + 1,
                n,
                status: "queued".to_owned(),
            },
        ),
        Task::Elsewhere(e) => Some(
            RenderEvent {
                key: Some(e.key.clone()),
                complete: false,
                chapter: e.chapter,
                render_idx: e.chunk + 1,
                n,
                status: "queued".to_owned(),
            },
        ),
        Task::Ahead(c, i) => Some(
            RenderEvent {
                key: None,
                complete: false,
                chapter: *c,
                render_idx: *i + 1,
                n,
                status: "prerendering".to_owned(),
            },
        ),
        Task::Buffered => None,
        Task::Spare => None,
    }
}

/// How many chunks were rendered that the reader does not wait for, so that the
/// cache is swept now and then.
#[derive(Debug, Clone, Copy, PartialEq, Eq, Structural)]
pub struct Ahead {
    pub rendered: usize,
}

/// Whether a task renders what the reader does not wait for.
pub open spec fn counts(t: TaskView) -> bool {
    t is Queued || t is Elsewhere || t is Ahead
}

impl Ahead {
    /// None was rendered.
    pub fn new() -> (r: Self)
        ensures
            r.rendered == 0,
    {
        Ahead { rendered: 0 }
    }

    /// Count a task, and say whether the cache is to be swept.
    pub fn count(&mut self, t: &Task) -> (r: bool)
        requires
            old(self).rendered < usize::MAX,
        ensures
            final(self).rendered == if counts(t@) {
                old(self).rendered + 1
            } else {
                old(self).rendered as int
            },
            r == (counts(t@) && final(self).rendered % GC_EVERY == 0),
    {
        let one = match t {
            Task::Queued(_, _) => true,
            Task::Elsewhere(_) => true,
            Task::Ahead(_, _) => true,
            _ => false,
        };
        if !one {
            return false;
        }
        self.rendered = self.rendered + 1;
        self.rendered % GC_EVERY == 0
    }
}

/// The renderer is shown as behind exactly while it renders the chunk under the
/// playhead.
pub fn is_behind(t: &Task) -> (r: bool)
    ensures
        r == t@ is Playhead,
{
    match t {
        Task::Playhead(_) => true,
        _ => false,
    }
}

/// The chunk under the playhead, where it is missing, is what a renderer that may
/// work renders next, wherever it last was and whatever else was asked for; and from
/// then on it counts as behind: at any later time it has been for as long as since
/// it first was.
pub proof fn law_the_playhead_is_served(
    disk: Disk,
    key: Seq<char>,
    plan: Seq<ChapterView>,
    at: Place,
    queued: Option<(usize, usize)>,
    elsewhere: Option<TargetView>,
    stall: Stall,
    now: u64,
    later: u64,
)
    requires
        at.playhead < chunks_in(plan, at.chapter as int),
        !disk(key, at.chapter as int, at.playhead as int),
        now <= later,
        stall.since matches Some(t) ==> t <= now,
    ensures
        turn_of(false, true, true, true, true) == WorkerTurn::Look,
        ({
            let task = task_of(disk, key, plan, at, queued, elsewhere);
            &&& chunk_of(task, key, at) == Some(
                TargetView { key, chapter: at.chapter, chunk: at.playhead },
            )
            &&& stall.noted(task is Playhead, now).length(later) == later - match stall.since {
                Some(t) => t,
                None => now,
            }
        }),
{
}

// ------------------------------------------------------------------- the threads

/// A thread of which there is at most one.
#[derive(Debug, Clone, Copy, PartialEq, Eq, Structural)]
pub struct Thread {
    pub started: bool,
}

impl Thread {
    /// It was not started.
    pub fn new() -> (r: Self)
        ensures
            !r.started,
    {
        Thread { started: false }
    }

    /// See to it that it runs, and say whether it has to be started for that.
    pub fn ensure(&mut self) -> (r: bool)
        ensures
            r == !old(self).started,
            final(self).started,
    {
        let r = !self.started;
        self.started = true;
        r
    }

    /// What is left once a turn came to `t`: a thread ends on a stop and on nothing
    /// else.
    pub open spec fn after(self, t: WorkerTurn) -> Thread {
        if t is Stop {
            Thread { started: false }
        } else {
            self
        }
    }

    /// A turn came to `t`; say whether the thread ends.
    pub fn turned(&mut self, t: WorkerTurn) -> (r: bool)
        ensures
            r == (t is Stop),
            *final(self) == old(self).after(t),
    {
        match t {
            WorkerTurn::Stop => {
                self.started = false;
                true
            },
            _ => false,
        }
    }
}

/// A renderer that is told to stop ends, whatever else holds, and can be started
/// anew; while it is not told to, it goes on, and is not started twice.
pub proof fn law_a_stopped_renderer_can_start_anew(
    t: Thread,
    stopped: bool,
    run: bool,
    clear: bool,
    loaded: bool,
    ready: bool,
)
    requires
        t.started,
    ensures
        t.after(turn_of(stopped, run, clear, loaded, ready)).started == !stopped,
{
}

/// What the program was called for.
#[derive(Debug, Clone, Copy, PartialEq, Eq, Structural)]
pub enum Command {
    OpenApi,
    Healthcheck,
    Export,
    Migrate,
    Retrim,
    Serve,
}

/// Whether a word is among those given.
pub open spec fn says(argv: Seq<Seq<char>>, word: Seq<char>) -> bool {
    exists|i: int| 0 <= i < argv.len() && #[trigger] argv[i] == word
}

/// What the program was called for, by the words behind its name.
pub open spec fn command_of(argv: Seq<Seq<char>>) -> Command {
    let first = if argv.len() > 0 {
        argv[0]
    } else {
        Seq::empty()
    };
    if says(argv, "--openapi"@) {
        Command::OpenApi
    } else if says(argv, "--healthcheck"@) {
        Command::Healthcheck
    } else if first == "export"@ {
        Command::Export
    } else if first == "migrate"@ {
        Command::Migrate
    } else if first == "retrim"@ {
        Command::Retrim
    } else {
        Command::Serve
    }
}

/// What the program was called for, by the words behind its name.
pub fn command(argv: &Vec<String>) -> (r: Command)
    ensures
        r == command_of(texts(argv@)),
{
    let ghost words = texts(argv@);
    proof {
        reveal_strlit("export");
        reveal_strlit("migrate");
        reveal_strlit("retrim");
    }
    if has_text(argv, "--openapi") {
        return Command::OpenApi;
    }
    if has_text(argv, "--healthcheck") {
        return Command::Healthcheck;
    }
    if argv.len() == 0 {
        assert(Seq::<char>::empty().len() == 0);
        assert("export"@.len() == 6 && "migrate"@.len() == 7 && "retrim"@.len() == 6);
        return Command::Serve;
    }
    assert(words[0] == argv@[0]@);
    let first = argv[0].as_str();
    if same_text(first, "export") {
        Command::Export
    } else if same_text(first, "migrate") {
        Command::Migrate
    } else if same_text(first, "retrim") {
        Command::Retrim
    } else {
        Command::Serve
    }
}

} // verus!
