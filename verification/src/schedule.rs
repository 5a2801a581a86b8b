//! The ingestion fleet: one unit struct per periodic worker, each with
//! its polling interval. The executor around the library spawns one task
//! per worker, aligns its ticker — with an optional startup jitter of a
//! fraction between a tenth and the whole of the interval — skips missed
//! ticks rather than catching up, and stops every task on the shutdown
//! signal.

use vstd::prelude::*;

verus! {

/// Fetches state, time and the postseason bracket, and fans out to
/// leagues and teams.
pub struct PollLeague;

/// Fetches players that appear on rosters but have never been archived.
pub struct PollNewPlayers;

/// Refreshes every known player in bulk chunks.
pub struct PollAllPlayers;

/// Collects bench players from archived games and fetches them.
pub struct PollBenches;

/// Fetches the current season's days, then polls every game not yet
/// complete.
pub struct PollGameDays;

/// Polls the event-log delta of every game in progress.
pub struct PollLiveGames;

/// Polls the games the state document names as event games.
pub struct HandleEventGames;

/// Polls the superstar games endpoint and the games it names.
pub struct HandleSuperstarGames;

/// Refreshes the derived database views under an advisory lock.
pub struct RefreshMatviews;

/// Fetches the short broadcast message endpoint.
pub struct PollMessage;

/// Fetches the spotlight, news and word-list endpoints.
pub struct PollMiscData;

/// Resolves team locations to map coordinates, cached per location.
pub struct LookupMapLocations;

/// Extracts player-name history from archived feeds.
pub struct ProcessFeeds;

/// Fetches every known player's feed.
pub struct PollPlayerFeeds;

/// Fetches every known team's feed.
pub struct PollTeamFeeds;

impl PollLeague {
    pub fn interval_secs() -> (r: u64)
        ensures
            r == 600,
    {
        600
    }
}

impl PollNewPlayers {
    pub fn interval_secs() -> (r: u64)
        ensures
            r == 60,
    {
        60
    }
}

impl PollAllPlayers {
    pub fn interval_secs() -> (r: u64)
        ensures
            r == 600,
    {
        600
    }
}

impl PollBenches {
    pub fn interval_secs() -> (r: u64)
        ensures
            r == 1800,
    {
        1800
    }
}

impl PollGameDays {
    pub fn interval_secs() -> (r: u64)
        ensures
            r == 300,
    {
        300
    }
}

impl PollLiveGames {
    pub fn interval_secs() -> (r: u64)
        ensures
            r == 30,
    {
        30
    }
}

impl HandleEventGames {
    pub fn interval_secs() -> (r: u64)
        ensures
            r == 300,
    {
        300
    }
}

impl HandleSuperstarGames {
    pub fn interval_secs() -> (r: u64)
        ensures
            r == 300,
    {
        300
    }
}

impl RefreshMatviews {
    pub fn interval_secs() -> (r: u64)
        ensures
            r == 600,
    {
        600
    }
}

impl PollMessage {
    pub fn interval_secs() -> (r: u64)
        ensures
            r == 5,
    {
        5
    }
}

impl PollMiscData {
    pub fn interval_secs() -> (r: u64)
        ensures
            r == 300,
    {
        300
    }
}

impl LookupMapLocations {
    pub fn interval_secs() -> (r: u64)
        ensures
            r == 60,
    {
        60
    }
}

impl ProcessFeeds {
    pub fn interval_secs() -> (r: u64)
        ensures
            r == 300,
    {
        300
    }
}

impl PollPlayerFeeds {
    pub fn interval_secs() -> (r: u64)
        ensures
            r == 1800,
    {
        1800
    }
}

impl PollTeamFeeds {
    pub fn interval_secs() -> (r: u64)
        ensures
            r == 600,
    {
        600
    }
}

/// The startup jitter is a fraction of the interval between one tenth
/// and the whole of it: the delay, in milliseconds, of a worker whose
/// interval is `secs` seconds under jitter fraction `permille` per mille.
pub fn jitter_delay_millis(secs: u64, permille: u64) -> (r: u64)
    requires
        100 <= permille <= 1000,
        secs <= 3600,
    ensures
        r == secs * permille,
        100 * secs <= r <= 1000 * secs,
{
    proof {
        assert(secs * permille <= secs * 1000) by (nonlinear_arith)
            requires
                permille <= 1000,
                0 <= secs,
        ;
        assert(secs * 100 <= secs * permille) by (nonlinear_arith)
            requires
                100 <= permille,
                0 <= secs,
        ;
    }
    secs * permille
}

} // verus!
