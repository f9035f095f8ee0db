//! A check that can fail: what is wrong right now.

use vstd::prelude::*;
use crate::chars::{cat, same_text, signed_chars, signed_decimal, text_of, texts};
use crate::render::chunks_in;
use crate::state::{Session, SessionView};

verus! {

/// What the check goes by.
#[derive(Debug)]
pub struct Facts {
    pub status: String,
    pub error: Option<String>,
    /// Whether the renderer is to run.
    pub run: bool,
    /// Whether there is anything for it to render.
    pub want: bool,
    pub render_alive: bool,
    /// Whether no chunk has landed for longer than is allowed.
    pub overdue: bool,
    /// For how many seconds none has.
    pub since_s: i64,
    /// Why the work directory cannot be written to, where it cannot.
    pub work_error: Option<String>,
    pub positions_dir: String,
    /// Why the directory of positions cannot be, where it cannot.
    pub positions_error: Option<String>,
}

/// Whether the hint says that the chapter being read is not wholly rendered.
pub open spec fn wants(s: SessionView) -> bool {
    s.chapter < s.plan.len() && s.render_idx < chunks_in(s.plan, s.chapter as int)
}

/// Whether the hint says that the chapter being read is not wholly rendered.
pub fn wants_rendering(s: &Session) -> (r: bool)
    ensures
        r == wants(s@),
{
    let ghost pv = s@.plan;
    if s.chapter >= s.plan.len() {
        return false;
    }
    let n: usize = s.plan[s.chapter].chunks.len();
    assert(pv[s.chapter as int].chunks.len() == n);
    s.render_idx < n
}

/// Whether a status is that of a renderer at work.
pub open spec fn working(status: Seq<char>) -> bool {
    status == "rendering"@ || status == "prerendering"@ || status == "queued"@
}

/// One thing, where it holds.
pub open spec fn if_so(holds: bool, what: Seq<char>) -> Seq<Seq<char>> {
    if holds {
        seq![what]
    } else {
        Seq::empty()
    }
}

/// Why something cannot be written to, where it cannot.
pub open spec fn why(e: Option<String>) -> Seq<char> {
    match e {
        Some(e) => e@,
        None => Seq::empty(),
    }
}

/// What is wrong, in the order it is said.
pub open spec fn problems_of(f: Facts) -> Seq<Seq<char>> {
    if_so(
        f.status@ == "error"@,
        "render worker died: "@ + match f.error {
            Some(e) => e@,
            None => "unknown"@,
        },
    ) + if_so(
        f.run && f.want && !f.render_alive,
        "render worker not running while work is queued"@,
    ) + if_so(
        working(f.status@) && f.overdue,
        "no chunk finished in "@ + signed_decimal(f.since_s as int) + "s while status="@
            + f.status@,
    ) + if_so(f.work_error is Some, "work dir not writable: "@ + why(f.work_error)) + if_so(
        f.positions_error is Some,
        "positions dir "@ + f.positions_dir@ + " not writable: "@ + why(f.positions_error),
    )
}

fn say(out: &mut Vec<String>, holds: bool, what: String)
    ensures
        texts(final(out)@) == texts(old(out)@) + if_so(holds, what@),
{
    let ghost before = texts(out@);
    if holds {
        out.push(what);
        assert(texts(out@) =~= before + seq![what@]);
    } else {
        assert(before + Seq::<Seq<char>>::empty() =~= before);
    }
}

/// What is wrong. Nothing where all is well.
pub fn problems(f: &Facts) -> (r: Vec<String>)
    ensures
        texts(r@) == problems_of(*f),
{
    let mut out: Vec<String> = Vec::new();
    let e = match &f.error {
        Some(e) => e.clone(),
        None => "unknown".to_owned(),
    };
    let died = cat("render worker died: ", e.as_str());
    assert(texts(out@) + if_so(f.status@ == "error"@, died@) =~= if_so(
        f.status@ == "error"@,
        died@,
    ));
    say(&mut out, same_text(f.status.as_str(), "error"), died);
    say(
        &mut out,
        f.run && f.want && !f.render_alive,
        "render worker not running while work is queued".to_owned(),
    );
    let at_work = same_text(f.status.as_str(), "rendering") || same_text(
        f.status.as_str(),
        "prerendering",
    ) || same_text(f.status.as_str(), "queued");
    let secs = text_of(&signed_chars(f.since_s));
    let a = cat("no chunk finished in ", secs.as_str());
    let b = cat(a.as_str(), "s while status=");
    say(&mut out, at_work && f.overdue, cat(b.as_str(), f.status.as_str()));
    let w = match &f.work_error {
        Some(e) => e.clone(),
        None => {
            let none = String::new();
            assert(none@ =~= why(f.work_error));
            none
        },
    };
    say(&mut out, f.work_error.is_some(), cat("work dir not writable: ", w.as_str()));
    let p = match &f.positions_error {
        Some(e) => e.clone(),
        None => {
            let none = String::new();
            assert(none@ =~= why(f.positions_error));
            none
        },
    };
    let c = cat(cat("positions dir ", f.positions_dir.as_str()).as_str(), " not writable: ");
    say(&mut out, f.positions_error.is_some(), cat(c.as_str(), p.as_str()));
    out
}

/// The status the check is answered with.
pub fn health_status(problems: usize) -> (r: u16)
    ensures
        r == if problems == 0 {
            200
        } else {
            503int
        },
{
    if problems == 0 {
        200
    } else {
        503
    }
}

/// The threads that run, by name.
pub fn threads(render: bool, build: bool) -> (r: Vec<String>)
    ensures
        texts(r@) == if_so(build, "build"@) + if_so(render, "render"@),
{
    let mut out: Vec<String> = Vec::new();
    assert(texts(out@) + if_so(build, "build"@) =~= if_so(build, "build"@));
    say(&mut out, build, "build".to_owned());
    say(&mut out, render, "render".to_owned());
    out
}

/// The beginning of an answer that says all is well.
pub const HEALTHY: [u8; 12] = [72, 84, 84, 80, 47, 49, 46, 49, 32, 50, 48, 48];

/// Whether an answer, as far as it was read, says that all is well.
pub fn is_healthy(answer: &[u8]) -> (r: bool)
    ensures
        r == (answer@.len() >= 12 && answer@.take(12) == HEALTHY@),
{
    if answer.len() < 12 {
        return false;
    }
    let mut i: usize = 0;
    while i < 12
        invariant
            i <= 12 <= answer@.len(),
            forall|k: int| 0 <= k < i ==> answer@[k] == HEALTHY@[k],
        decreases 12 - i,
    {
        if answer[i] != HEALTHY[i] {
            assert(answer@.take(12)[i as int] != HEALTHY@[i as int]);
            return false;
        }
        i += 1;
    }
    assert(answer@.take(12) =~= HEALTHY@);
    true
}

} // verus!
