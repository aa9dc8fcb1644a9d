//! Starting the game through Steam and waiting for it to end: the command
//! line, and the decisions of the watch.

use vstd::prelude::*;
use crate::error::EngineError;
use crate::paths::{backslashed, eq_ignore_case, join, joined, same_ignoring_case, texts, to_backslashes};

verus! {

/// The Steam executable below a Steam root.
pub fn steam_executable(steam_root: &str) -> (out: String)
    ensures
        out@ == joined(steam_root@, "steam.exe"@),
{
    join(steam_root, "steam.exe")
}

/// The arguments that make Steam start the game with its cache directory set
/// and connect it to the server.
pub open spec fn launch_line(appid: Seq<char>, cachedir: Seq<char>) -> Seq<Seq<char>> {
    seq![
        "-applaunch"@,
        appid,
        "-cachedir="@ + backslashed(cachedir),
        "-connect=pz.13thpandemic.net"@,
        "-port=16261"@,
    ]
}

/// The arguments for Steam. The cache directory is written with backslashes.
pub fn launch_arguments(appid: &str, cachedir: &str) -> (args: Vec<String>)
    ensures
        texts(args@) == launch_line(appid@, cachedir@),
{
    let mut args: Vec<String> = Vec::new();
    args.push(String::from_str("-applaunch"));
    args.push(String::from_str(appid));
    let dir = to_backslashes(cachedir);
    let mut cache = String::from_str("-cachedir=");
    cache.append(dir.as_str());
    args.push(cache);
    args.push(String::from_str("-connect=pz.13thpandemic.net"));
    args.push(String::from_str("-port=16261"));
    proof {
        assert(texts(args@) =~= launch_line(appid@, cachedir@));
    }
    args
}

/// Whether a running process is the one looked for; the case of ASCII letters
/// does not count.
pub fn is_process(name: &str, wanted: &str) -> (same: bool)
    ensures
        same == same_ignoring_case(name@, wanted@),
{
    eq_ignore_case(name, wanted)
}

/// Whether some process of the list is the one looked for.
pub fn is_running(names: &Vec<String>, wanted: &str) -> (found: bool)
    ensures
        found == exists|i: int|
            0 <= i < names@.len() && same_ignoring_case(#[trigger] names@[i]@, wanted@),
{
    let mut i: usize = 0;
    while i < names.len()
        invariant
            i <= names@.len(),
            forall|j: int| 0 <= j < i ==> !same_ignoring_case(#[trigger] names@[j]@, wanted@),
        decreases names@.len() - i,
    {
        if is_process(names[i].as_str(), wanted) {
            return true;
        }
        i += 1;
    }
    false
}

/// Refuses an empty path before anything is opened.
pub fn check_path(path: &str) -> (out: Result<(), EngineError>)
    ensures
        out is Ok <==> path@.len() > 0,
        out is Err ==> out == Err::<(), EngineError>(EngineError::NotFound),
{
    if path.unicode_len() == 0 {
        Err(EngineError::NotFound)
    } else {
        Ok(())
    }
}

/// How often the game is looked for before the watch gives up.
pub const START_POLLS: u8 = 10;

/// The state of the watch over the game's process.
#[derive(Clone, Copy, Debug, PartialEq, Eq, Structural)]
pub enum Watch {
    /// The game has not been seen yet; `polls` looks were in vain.
    Waiting { polls: u8 },
    /// The game is running.
    Running,
    /// The watch is over; `found` tells whether the game was ever seen.
    Ended { found: bool },
}

/// The state that follows when a look at the process list gave `running`.
pub open spec fn watch_next(state: Watch, running: bool) -> Watch {
    match state {
        Watch::Waiting { polls } => if running {
            Watch::Running
        } else if polls + 1 >= START_POLLS {
            Watch::Ended { found: false }
        } else {
            Watch::Waiting { polls: (polls + 1) as u8 }
        },
        Watch::Running => if running {
            Watch::Running
        } else {
            Watch::Ended { found: true }
        },
        Watch::Ended { found } => Watch::Ended { found },
    }
}

/// The seconds to sleep after a look: one while waiting in vain, two while the
/// game runs, none when the state changes to running or ended by a sighting.
pub open spec fn watch_pause(state: Watch, running: bool) -> u64 {
    match state {
        Watch::Waiting { .. } => if running {
            0
        } else {
            1
        },
        Watch::Running => if running {
            2
        } else {
            0
        },
        Watch::Ended { .. } => 0,
    }
}

/// Where the watch begins.
pub fn watch_start() -> (state: Watch)
    ensures
        state == (Watch::Waiting { polls: 0 }),
{
    Watch::Waiting { polls: 0 }
}

/// Takes one look at the process list into account: gives the next state and
/// the seconds to sleep before the next look.
pub fn watch_step(state: Watch, running: bool) -> (out: (Watch, u64))
    ensures
        out.0 == watch_next(state, running),
        out.1 == watch_pause(state, running),
{
    match state {
        Watch::Waiting { polls } => {
            if running {
                (Watch::Running, 0)
            } else if polls >= START_POLLS - 1 {
                (Watch::Ended { found: false }, 1)
            } else {
                (Watch::Waiting { polls: polls + 1 }, 1)
            }
        },
        Watch::Running => {
            if running {
                (Watch::Running, 2)
            } else {
                (Watch::Ended { found: true }, 0)
            }
        },
        Watch::Ended { found } => (Watch::Ended { found }, 0),
    }
}

/// A watch that never sees the game ends after `START_POLLS` looks, and not
/// before.
pub proof fn law_watch_gives_up(polls: u8)
    requires
        polls < START_POLLS,
    ensures
        watch_next(Watch::Waiting { polls }, false) is Ended <==> polls == START_POLLS - 1,
        watch_next(Watch::Waiting { polls }, false) is Waiting <==> polls < START_POLLS - 1,
{
}

} // verus!
