//! What goes over an event stream, and how often.

use vstd::prelude::*;
use crate::chars::{cat, decimal, decimal_text, same_text};

verus! {

/// One event of a stream. `data` is JSON, which holds no line break.
pub open spec fn sse_of(name: Seq<char>, data: Seq<char>, eid: Option<u64>) -> Seq<char> {
    let head = match eid {
        Some(i) => "id: "@ + decimal(i as nat) + "\n"@,
        None => Seq::empty(),
    };
    head + "event: "@ + name + "\ndata: "@ + data + "\n\n"@
}

/// One event of a stream, its data written as JSON.
pub fn sse(name: &str, data: &str, eid: Option<u64>) -> (r: String)
    ensures
        r@ == sse_of(name@, data@, eid),
{
    let head = match eid {
        Some(i) => cat(cat("id: ", decimal_text(i).as_str()).as_str(), "\n"),
        None => {
            let none = String::new();
            assert(none@ =~= Seq::<char>::empty());
            none
        },
    };
    let a = cat(cat(head.as_str(), "event: ").as_str(), name);
    let b = cat(cat(a.as_str(), "\ndata: ").as_str(), data);
    cat(b.as_str(), "\n\n")
}

/// A comment. A client ignores it, but it proves the connection.
pub fn comment(text: &str) -> (r: String)
    ensures
        r@ == ": "@ + text@ + "\n\n"@,
{
    cat(cat(": ", text).as_str(), "\n\n")
}

/// How long a client waits before it connects again.
pub fn retry(ms: u64) -> (r: String)
    ensures
        r@ == "retry: "@ + decimal(ms as nat) + "\n\n"@,
{
    cat(cat("retry: ", decimal_text(ms).as_str()).as_str(), "\n\n")
}

/// What a client that read too slowly is told.
pub fn lagged(missed: u64) -> (r: String)
    ensures
        r@ == ": lagged "@ + decimal(missed as nat) + "\n\n"@,
{
    let text = cat("lagged ", decimal_text(missed).as_str());
    let r = comment(text.as_str());
    proof {
        reveal_strlit(": ");
        reveal_strlit("lagged ");
        reveal_strlit(": lagged ");
        assert(": "@ + "lagged "@ =~= ": lagged "@);
        assert(": "@ + ("lagged "@ + decimal(missed as nat)) =~= ": lagged "@ + decimal(
            missed as nat,
        ));
    }
    r
}

/// The numbering of events and the thinning out of render progress. The times
/// are of a clock that never goes back.
pub struct Bus {
    /// The number of the last event.
    pub seq: u64,
    /// When progress last went out.
    pub progress_at: Option<u64>,
    /// The least time between two reports of progress.
    pub render_min: u64,
}

impl Bus {
    /// Nothing has gone out.
    pub fn new(render_min: u64) -> (r: Self)
        ensures
            r == (Bus { seq: 0, progress_at: None, render_min }),
    {
        Bus { seq: 0, progress_at: None, render_min }
    }

    /// The number of the next event, if anyone listens.
    pub fn emit(&mut self, listeners: usize) -> (r: Option<u64>)
        requires
            old(self).seq < u64::MAX,
        ensures
            match r {
                Some(id) => {
                    &&& listeners > 0
                    &&& id == old(self).seq + 1
                    &&& *final(self) == (Bus { seq: id, ..*old(self) })
                },
                None => listeners == 0 && *final(self) == *old(self),
            },
    {
        if listeners == 0 {
            return None;
        }
        self.seq = self.seq + 1;
        Some(self.seq)
    }

    /// Whether progress has not gone out for long enough.
    pub open spec fn due(self, now: u64) -> bool {
        match self.progress_at {
            Some(last) => last <= now && now - last >= self.render_min,
            None => true,
        }
    }

    /// The number under which a render event goes out. Progress comes several
    /// times a second and is thinned out; every other kind always goes out.
    pub fn emit_render(&mut self, kind: &str, listeners: usize, now: u64) -> (r: Option<u64>)
        requires
            old(self).seq < u64::MAX,
        ensures
            r is Some <==> listeners > 0 && (kind@ != "progress"@ || old(self).due(now)),
            r matches Some(id) ==> id == old(self).seq + 1,
            final(self).seq == match r {
                Some(id) => id,
                None => old(self).seq,
            },
            final(self).render_min == old(self).render_min,
            final(self).progress_at == if kind@ == "progress"@ && old(self).due(now) {
                Some(now)
            } else {
                old(self).progress_at
            },
    {
        if same_text(kind, "progress") {
            let due = match self.progress_at {
                Some(last) => last <= now && now - last >= self.render_min,
                None => true,
            };
            if !due {
                return None;
            }
            self.progress_at = Some(now);
        }
        self.emit(listeners)
    }
}

} // verus!
