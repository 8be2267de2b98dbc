//! What a script is told of its surroundings, and how it waits for events.

use vstd::prelude::*;
use vstd::string::StrSliceExecFns;

use crate::time::{Duration, Moment};

verus! {

/// The text with each backslash replaced by a slash.
pub open spec fn with_slashes(s: Seq<char>) -> Seq<char> {
    s.map_values(
        |c: char|
            if c == '\\' {
                '/'
            } else {
                c
            },
    )
}

/// The text with each backslash replaced by a slash.
fn slashed(s: &str) -> (r: String)
    ensures
        r@ == with_slashes(s@),
{
    let n: usize = s.unicode_len();
    let mut r = "".to_owned();
    let mut i: usize = 0;
    proof {
        reveal_strlit("");
        reveal_strlit("/");
    }
    assert(r@ =~= with_slashes(s@).take(0));
    while i < n
        invariant
            i <= n,
            n == s@.len(),
            "/"@ == seq!['/'],
            r@ == with_slashes(s@).take(i as int),
        decreases n - i,
    {
        if s.get_char(i) == '\\' {
            r = r.concat("/");
        } else {
            r = r.concat(s.substring_char(i, i + 1));
        }
        assert(r@ =~= with_slashes(s@).take(i + 1));
        i = i + 1;
    }
    assert(with_slashes(s@).take(n as int) =~= with_slashes(s@));
    r
}

/// The code that lets a script load others from a directory.
pub open spec fn setup_text(dir: Seq<char>) -> Seq<char> {
    let d = with_slashes(dir);
    "\n            package.path = \""@ + d + "/?.lua;"@ + d
        + "/?/init.lua;\" .. package.path\n            SCRIPTS_DIR = \""@ + d
        + "\"\n            "@
}

/// The code that lets a script load others from a directory.
pub fn setup_code(scripts_dir: &str) -> (code: String)
    ensures
        code@ == setup_text(scripts_dir@),
{
    let dir = slashed(scripts_dir);
    let d = dir.as_str();
    let code = "\n            package.path = \"".to_owned().concat(d).concat("/?.lua;").concat(
        d,
    ).concat("/?/init.lua;\" .. package.path\n            SCRIPTS_DIR = \"").concat(d).concat(
        "\"\n            ",
    );
    assert(code@ =~= setup_text(scripts_dir@));
    code
}

/// How long one who waits for an event sleeps at a time, in nanoseconds.
pub const POLL_INTERVAL: u128 = 50_000_000;

/// What one who waits for an event does next.
#[derive(Debug, Clone, Copy, PartialEq, Eq, Structural)]
pub enum WaitTurn {
    /// The time is up.
    GiveUp,
    /// Take an event if there is one, else sleep until then.
    PollOrSleep(Moment),
}

/// When the time of one who waits is up.
pub fn wait_deadline(now: Moment, timeout_ms: u64) -> (t: Moment)
    requires
        now.wf(),
    ensures
        t.nanos == now.nanos + timeout_ms * 1_000_000,
{
    now.after(Duration::from_millis(timeout_ms))
}

/// Whether one who waits until a deadline does this next.
pub open spec fn waits(deadline: Moment, now: Moment, turn: WaitTurn) -> bool {
    match turn {
        WaitTurn::GiveUp => deadline.nanos <= now.nanos,
        WaitTurn::PollOrSleep(t) => {
            &&& now.nanos < deadline.nanos
            &&& t.nanos == if deadline.nanos <= now.nanos + POLL_INTERVAL {
                deadline.nanos as int
            } else {
                now.nanos + POLL_INTERVAL
            }
        },
    }
}

/// What one who waits until a deadline does next.
pub fn wait_turn(deadline: Moment, now: Moment) -> (turn: WaitTurn)
    requires
        now.wf(),
    ensures
        turn == if now.nanos >= deadline.nanos {
            WaitTurn::GiveUp
        } else if now.nanos + POLL_INTERVAL < deadline.nanos {
            WaitTurn::PollOrSleep(Moment { nanos: (now.nanos + POLL_INTERVAL) as u128 })
        } else {
            WaitTurn::PollOrSleep(deadline)
        },
        waits(deadline, now, turn),
{
    if now.nanos >= deadline.nanos {
        WaitTurn::GiveUp
    } else if deadline.nanos - now.nanos > POLL_INTERVAL {
        WaitTurn::PollOrSleep(Moment { nanos: now.nanos + POLL_INTERVAL })
    } else {
        WaitTurn::PollOrSleep(deadline)
    }
}

/// Law: a path is written with slashes and without backslashes, and is otherwise the same.
pub proof fn paths_are_written_with_slashes(s: Seq<char>)
    ensures
        with_slashes(s).len() == s.len(),
        forall|i: int|
            0 <= i < s.len() ==> {
                &&& #[trigger] with_slashes(s)[i] != '\\'
                &&& s[i] != '\\' ==> with_slashes(s)[i] == s[i]
                &&& s[i] == '\\' ==> with_slashes(s)[i] == '/'
            },
        with_slashes(with_slashes(s)) == with_slashes(s),
{
    assert(with_slashes(with_slashes(s)) =~= with_slashes(s));
}

/// Law: one who waits gives up when the deadline is reached, and not before; until then the
/// sleep ends after fifty milliseconds, or at the deadline if that is sooner.
pub proof fn waiting_ends_at_the_deadline(deadline: Moment, now: Moment, turn: WaitTurn)
    requires
        waits(deadline, now, turn),
    ensures
        turn is GiveUp <==> now.nanos >= deadline.nanos,
        turn matches WaitTurn::PollOrSleep(t) ==> {
            &&& now.nanos < t.nanos <= deadline.nanos
            &&& t.nanos - now.nanos <= 50_000_000
            &&& t.nanos == deadline.nanos || t.nanos - now.nanos == 50_000_000
        },
{
}

} // verus!
