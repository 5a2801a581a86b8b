//! The stats aggregator: a group-by query over per-game player stats,
//! built from a closed set of fields, groupings, filters and sorts, so
//! the builder can never emit anything outside that set.

use vstd::prelude::*;

verus! {

/// The closed set of summable stat fields. Each one is a column of the
/// exploded per-game stats table.
#[derive(Clone, Copy, Debug, PartialEq, Eq, Structural, Hash)]
pub enum StatKey {
    AllowedStolenBases,
    Appearances,
    Assists,
    AtBats,
    BattersFaced,
    BlownSaves,
    CaughtDoublePlay,
    CaughtStealing,
    CompleteGames,
    DoublePlays,
    Doubles,
    EarnedRuns,
    Errors,
    FieldOut,
    FieldersChoice,
    Flyouts,
    ForceOuts,
    GamesFinished,
    GroundedIntoDoublePlay,
    Groundouts,
    HitBatters,
    HitByPitch,
    HitsAllowed,
    HomeRuns,
    HomeRunsAllowed,
    InheritedRunners,
    InheritedRunsAllowed,
    LeftOnBase,
    Lineouts,
    Losses,
    MoundVisits,
    NoHitters,
    Outs,
    PerfectGames,
    PitchesThrown,
    PlateAppearances,
    Popouts,
    Putouts,
    QualityStarts,
    ReachedOnError,
    RunnersCaughtStealing,
    Runs,
    RunsBattedIn,
    SacFlies,
    SacrificeDoublePlays,
    Saves,
    Shutouts,
    Singles,
    Starts,
    StolenBases,
    Strikeouts,
    StruckOut,
    Triples,
    UnearnedRuns,
    Walked,
    Walks,
    Wins,
}

/// What rows may be grouped by. Grouping by day always carries the season
/// with it.
#[derive(Clone, Copy, Debug, PartialEq, Eq, Structural, Hash)]
pub enum GroupColumn {
    Player,
    Team,
    League,
    Season,
    Day,
    Game,
    PlayerName,
}

/// The three streaming output shapes.
#[derive(Clone, Copy, Debug, PartialEq, Eq, Structural)]
pub enum StatsFormat {
    Csv,
    Json,
    Ndjson,
}

/// Bounds a requested stat's sum must satisfy, each becoming one HAVING
/// clause.
#[derive(Clone, Copy, Debug, PartialEq, Eq, Structural)]
pub struct StatFilter {
    pub gt: Option<u32>,
    pub lt: Option<u32>,
    pub eq_to: Option<u32>,
    pub lte: Option<u32>,
    pub gte: Option<u32>,
}

/// A roster slot or fielding position, as the stats table stores it.
#[derive(Clone, Copy, Debug, PartialEq, Eq, Structural)]
pub enum SlotOrPosition {
    FirstB,
    SecondB,
    ThirdB,
    C,
    CF,
    CL,
    DH,
    LF,
    RF,
    RP,
    RP1,
    RP2,
    RP3,
    SP,
    SP1,
    SP2,
    SP3,
    SP4,
    SP5,
    SS,
}

/// A stats request as the read API receives it.
pub struct StatsRequest {
    pub start: Option<crate::models::SeasonDay>,
    pub end: Option<crate::models::SeasonDay>,
    pub season: Option<i32>,
    pub player: Option<String>,
    pub team: Option<String>,
    pub league: Option<String>,
    pub game: Option<String>,
    pub fields: Vec<StatKey>,
    pub group: Vec<GroupColumn>,
    pub format: Option<StatsFormat>,
    pub sort: Option<StatKey>,
    pub count: Option<u64>,
    pub filter: Vec<(StatKey, StatFilter)>,
    pub names: bool,
}

/// The normalized form the query builder takes.
pub struct StatsQueryNew {
    pub start: Option<(i32, i32)>,
    pub end: Option<(i32, i32)>,
    pub player: Option<String>,
    pub team: Option<String>,
    pub league: Option<String>,
    pub game: Option<String>,
    pub slot: Option<SlotOrPosition>,
    pub group_league: bool,
    pub group_team: bool,
    pub group_player: bool,
    pub group_season: bool,
    pub group_day: bool,
    pub group_game: bool,
    pub group_slot: bool,
    pub group_player_name: bool,
    pub sort: Option<StatKey>,
    pub count: Option<u64>,
    pub include_names: bool,
    pub fields: Vec<StatKey>,
    pub filters: Vec<(StatKey, StatFilter)>,
}

/// The largest row count a stats request may ask for, and its default.
pub const STATS_COUNT_CAP: u64 = 100_000;

/// `s` with later repeats removed: each element kept at its first
/// occurrence, order preserved.
pub open spec fn dedup_spec(s: Seq<StatKey>) -> Seq<StatKey>
    decreases s.len(),
{
    if s.len() == 0 {
        Seq::empty()
    } else if s.drop_last().contains(s.last()) {
        dedup_spec(s.drop_last())
    } else {
        dedup_spec(s.drop_last()).push(s.last())
    }
}

/// Deduplication keeps exactly the elements that were there.
pub proof fn lemma_dedup_contains(s: Seq<StatKey>, x: StatKey)
    ensures
        dedup_spec(s).contains(x) <==> s.contains(x),
    decreases s.len(),
{
    if s.len() > 0 {
        let d = s.drop_last();
        lemma_dedup_contains(d, x);
        assert(s.contains(x) <==> (d.contains(x) || x == s.last())) by {
            if s.contains(x) {
                let i = choose|i: int| 0 <= i < s.len() && s[i] == x;
                if i < s.len() - 1 {
                    assert(d[i] == x);
                }
            }
            if d.contains(x) {
                let i = choose|i: int| 0 <= i < d.len() && d[i] == x;
                assert(s[i] == x);
            }
            assert(s[s.len() - 1] == s.last());
        }
        if d.contains(s.last()) {
            if x == s.last() {
                assert(d.contains(x));
            }
        } else {
            let dd = dedup_spec(d);
            assert(dedup_spec(s) == dd.push(s.last()));
            assert(dedup_spec(s).contains(x) <==> (dd.contains(x) || x == s.last())) by {
                if dedup_spec(s).contains(x) {
                    let i = choose|i: int| 0 <= i < dd.len() + 1 && dd.push(s.last())[i] == x;
                    if i < dd.len() {
                        assert(dd[i] == x);
                    }
                }
                if dd.contains(x) {
                    let i = choose|i: int| 0 <= i < dd.len() && dd[i] == x;
                    assert(dd.push(s.last())[i] == x);
                }
                assert(dd.push(s.last())[dd.len() as int] == s.last());
            }
        }
    }
}

/// Is `x` among the elements?
fn keys_contain(s: &Vec<StatKey>, x: StatKey) -> (r: bool)
    ensures
        r == s@.contains(x),
{
    let mut i: usize = 0;
    loop
        invariant
            i <= s@.len(),
            forall|k: int| 0 <= k < i ==> s@[k] != x,
        ensures
            (i < s@.len() && s@[i as int] == x) || (i == s@.len() && forall|k: int|
                0 <= k < i ==> s@[k] != x),
        decreases s@.len() - i,
    {
        if i >= s.len() {
            break;
        }
        if s[i] == x {
            break;
        }
        i = i + 1;
    }
    i < s.len()
}

/// Is this grouping asked for?
pub fn group_contains(group: &Vec<GroupColumn>, c: GroupColumn) -> (r: bool)
    ensures
        r == group@.contains(c),
{
    let mut i: usize = 0;
    loop
        invariant
            i <= group@.len(),
            forall|k: int| 0 <= k < i ==> group@[k] != c,
        ensures
            (i < group@.len() && group@[i as int] == c) || (i == group@.len() && forall|k: int|
                0 <= k < i ==> group@[k] != c),
        decreases group@.len() - i,
    {
        if i >= group.len() {
            break;
        }
        if group[i] == c {
            break;
        }
        i = i + 1;
    }
    i < group.len()
}

/// Drop later repeats of requested fields, keeping first occurrences in
/// order.
pub fn dedup_preserving_order(vec: &mut Vec<StatKey>)
    ensures
        final(vec)@ == dedup_spec(old(vec)@),
{
    let ghost orig = vec@;
    let mut out: Vec<StatKey> = Vec::new();
    let mut i: usize = 0;
    proof {
        assert(orig.take(0) =~= Seq::<StatKey>::empty());
    }
    while i < vec.len()
        invariant
            i <= orig.len(),
            vec@ == orig,
            out@ == dedup_spec(orig.take(i as int)),
        decreases orig.len() - i,
    {
        let k = vec[i];
        let seen = keys_contain(&out, k);
        proof {
            let p = orig.take(i + 1);
            assert(p.drop_last() =~= orig.take(i as int));
            assert(p.last() == orig[i as int]);
            lemma_dedup_contains(orig.take(i as int), orig[i as int]);
        }
        if !seen {
            out.push(k);
        }
        i = i + 1;
    }
    proof {
        assert(orig.take(orig.len() as int) =~= orig);
    }
    *vec = out;
}

/// Normalize a request for the builder: clamp the row count to its cap,
/// deduplicate the fields, expand a bare season into the half-open
/// `(season, 0) .. (season + 1, 0)` window, and map the groupings to
/// flags. The format defaults to CSV.
pub fn plan_stats_query(req: StatsRequest) -> (r: (StatsQueryNew, StatsFormat))
    requires
        req.season matches Some(s) ==> s < i32::MAX,
    ensures
        ({
            let q = r.0;
            &&& q.count matches Some(c) && c == (match req.count {
                Some(rc) => if rc <= STATS_COUNT_CAP {
                    rc
                } else {
                    STATS_COUNT_CAP
                },
                None => STATS_COUNT_CAP,
            })
            &&& q.fields@ == dedup_spec(req.fields@)
            &&& (req.season matches Some(s) ==> q.start == Some((s, 0i32)) && q.end == Some(
                ((s + 1) as i32, 0i32),
            ))
            &&& (req.season is None ==> q.start == (match req.start {
                Some(sd) => Some((sd.season, sd.day)),
                None => None,
            }) && q.end == (match req.end {
                Some(sd) => Some((sd.season, sd.day)),
                None => None,
            }))
            &&& q.player == req.player
            &&& q.team == req.team
            &&& q.league == req.league
            &&& q.game == req.game
            &&& q.slot is None
            &&& q.group_league == req.group@.contains(GroupColumn::League)
            &&& q.group_team == req.group@.contains(GroupColumn::Team)
            &&& q.group_player == req.group@.contains(GroupColumn::Player)
            &&& q.group_season == req.group@.contains(GroupColumn::Season)
            &&& q.group_day == req.group@.contains(GroupColumn::Day)
            &&& q.group_game == req.group@.contains(GroupColumn::Game)
            &&& !q.group_slot
            &&& q.group_player_name == req.group@.contains(GroupColumn::PlayerName)
            &&& q.sort == req.sort
            &&& q.include_names == req.names
            &&& q.filters == req.filter
            &&& r.1 == (match req.format {
                Some(f) => f,
                None => StatsFormat::Csv,
            })
        }),
{
    let StatsRequest {
        start,
        end,
        season,
        player,
        team,
        league,
        game,
        mut fields,
        group,
        format,
        sort,
        count,
        filter,
        names,
    } = req;
    let fmt = match format {
        Some(f) => f,
        None => StatsFormat::Csv,
    };
    let c = match count {
        Some(rc) => if rc <= STATS_COUNT_CAP {
            rc
        } else {
            STATS_COUNT_CAP
        },
        None => STATS_COUNT_CAP,
    };
    dedup_preserving_order(&mut fields);
    let (qstart, qend) = match season {
        Some(s) => (Some((s, 0)), Some((s + 1, 0))),
        None => {
            let qs = match &start {
                Some(sd) => Some((sd.season, sd.day)),
                None => None,
            };
            let qe = match &end {
                Some(sd) => Some((sd.season, sd.day)),
                None => None,
            };
            (qs, qe)
        },
    };
    let q = StatsQueryNew {
        start: qstart,
        end: qend,
        player,
        team,
        league,
        game,
        slot: None,
        group_league: group_contains(&group, GroupColumn::League),
        group_team: group_contains(&group, GroupColumn::Team),
        group_player: group_contains(&group, GroupColumn::Player),
        group_season: group_contains(&group, GroupColumn::Season),
        group_day: group_contains(&group, GroupColumn::Day),
        group_game: group_contains(&group, GroupColumn::Game),
        group_slot: false,
        group_player_name: group_contains(&group, GroupColumn::PlayerName),
        sort,
        count: Some(c),
        include_names: names,
        fields,
        filters: filter,
    };
    (q, fmt)
}

/// The closed shape of the aggregation query the builder emits: summed
/// stat columns, equality filters, a grouping list, HAVING bounds plus
/// the standing rule that some requested sum be nonzero, an optional
/// sort by one summed field descending, and a row cap.
pub struct SelectSpec {
    /// Each requested stat, projected as its sum and aliased by its name.
    pub fields: Vec<StatKey>,
    pub where_player: Option<String>,
    pub where_team: Option<String>,
    pub where_league: Option<String>,
    pub where_game: Option<String>,
    pub where_slot: Option<SlotOrPosition>,
    /// Half-open `(season, day)` window bounds.
    pub start: Option<(i32, i32)>,
    pub end: Option<(i32, i32)>,
    /// Grouped and projected columns, in projection order.
    pub group_by: Vec<GroupColumn>,
    /// Group by the slot column as well.
    pub group_slot: bool,
    /// Project a representative player name next to the player id.
    pub select_player_name: bool,
    /// Project team location and name; requires the team table join.
    pub select_team_names: bool,
    /// Join the team table, for its league id or its names.
    pub join_teams: bool,
    /// HAVING bounds per stat; rows where every requested field sums to
    /// zero are always excluded.
    pub filters: Vec<(StatKey, StatFilter)>,
    /// Order by this field's sum, descending.
    pub sort: Option<StatKey>,
    pub limit: Option<u64>,
}

/// The grouped column list a normalized query asks for: day implies
/// season, then player, team, league, game and player name in that order.
pub open spec fn group_columns_spec(q: StatsQueryNew) -> Seq<GroupColumn> {
    (if q.group_day {
        seq![GroupColumn::Season, GroupColumn::Day]
    } else if q.group_season {
        seq![GroupColumn::Season]
    } else {
        Seq::empty()
    }) + (if q.group_player {
        seq![GroupColumn::Player]
    } else {
        Seq::empty()
    }) + (if q.group_team {
        seq![GroupColumn::Team]
    } else {
        Seq::empty()
    }) + (if q.group_league {
        seq![GroupColumn::League]
    } else {
        Seq::empty()
    }) + (if q.group_game {
        seq![GroupColumn::Game]
    } else {
        Seq::empty()
    }) + (if q.group_player_name {
        seq![GroupColumn::PlayerName]
    } else {
        Seq::empty()
    })
}

/// Build the aggregation query for a normalized request. Everything the
/// query can mention comes from the closed sets above; the team table is
/// joined exactly when a league filter, a league grouping, or team names
/// call for it.
#[verifier::rlimit(100)]
pub fn build_stats_select(q: StatsQueryNew) -> (r: SelectSpec)
    ensures
        r.fields == q.fields,
        r.where_player == q.player,
        r.where_team == q.team,
        r.where_league == q.league,
        r.where_game == q.game,
        r.where_slot == q.slot,
        r.start == q.start,
        r.end == q.end,
        r.group_by@ == group_columns_spec(q),
        r.group_slot == q.group_slot,
        r.select_player_name == (q.group_player && q.include_names && !q.group_player_name),
        r.select_team_names == (q.group_team && q.include_names),
        r.join_teams == (q.league is Some || (q.group_team && q.include_names) || q.group_league),
        r.filters == q.filters,
        r.sort == q.sort,
        r.limit == q.count,
{
    let join_teams = q.league.is_some() || (q.group_team && q.include_names) || q.group_league;
    let select_player_name = q.group_player && q.include_names && !q.group_player_name;
    let select_team_names = q.group_team && q.include_names;
    let mut group_by: Vec<GroupColumn> = Vec::new();
    if q.group_day {
        group_by.push(GroupColumn::Season);
        group_by.push(GroupColumn::Day);
    } else if q.group_season {
        group_by.push(GroupColumn::Season);
    }
    if q.group_player {
        group_by.push(GroupColumn::Player);
    }
    if q.group_team {
        group_by.push(GroupColumn::Team);
    }
    if q.group_league {
        group_by.push(GroupColumn::League);
    }
    if q.group_game {
        group_by.push(GroupColumn::Game);
    }
    if q.group_player_name {
        group_by.push(GroupColumn::PlayerName);
    }
    proof {
        assert(group_by@ =~= group_columns_spec(q));
    }
    SelectSpec {
        fields: q.fields,
        where_player: q.player,
        where_team: q.team,
        where_league: q.league,
        where_game: q.game,
        where_slot: q.slot,
        start: q.start,
        end: q.end,
        group_by,
        group_slot: q.group_slot,
        select_player_name,
        select_team_names,
        join_teams,
        filters: q.filters,
        sort: q.sort,
        limit: q.count,
    }
}

/// One column of the streamed output, in order: the grouped identity
/// columns, then every requested stat.
#[derive(Clone, Copy, Debug, PartialEq, Eq, Structural)]
pub enum OutputColumn {
    Season,
    Day,
    GameId,
    PlayerId,
    PlayerName,
    TeamId,
    TeamName,
    LeagueId,
    Stat(StatKey),
}

/// The output schema of a request: which columns each emitted row has,
/// in which order.
pub open spec fn output_columns_spec(
    group: Seq<GroupColumn>,
    fields: Seq<StatKey>,
    names: bool,
) -> Seq<OutputColumn> {
    (if group.contains(GroupColumn::Day) {
        seq![OutputColumn::Season, OutputColumn::Day]
    } else if group.contains(GroupColumn::Season) {
        seq![OutputColumn::Season]
    } else {
        Seq::empty()
    }) + (if group.contains(GroupColumn::Game) {
        seq![OutputColumn::GameId]
    } else {
        Seq::empty()
    }) + (if group.contains(GroupColumn::Player) {
        seq![OutputColumn::PlayerId]
    } else {
        Seq::empty()
    }) + (if (group.contains(GroupColumn::Player) && names) || group.contains(
        GroupColumn::PlayerName,
    ) {
        seq![OutputColumn::PlayerName]
    } else {
        Seq::empty()
    }) + (if group.contains(GroupColumn::Team) {
        if names {
            seq![OutputColumn::TeamId, OutputColumn::TeamName]
        } else {
            seq![OutputColumn::TeamId]
        }
    } else {
        Seq::empty()
    }) + (if group.contains(GroupColumn::League) {
        seq![OutputColumn::LeagueId]
    } else {
        Seq::empty()
    }) + fields.map_values(|k: StatKey| OutputColumn::Stat(k))
}

/// The columns each emitted row of this request has, in emission order:
/// the active schema of the variable-shape output.
#[verifier::rlimit(100)]
pub fn output_columns(group: &Vec<GroupColumn>, fields: &Vec<StatKey>, names: bool) -> (r: Vec<
    OutputColumn,
>)
    ensures
        r@ == output_columns_spec(group@, fields@, names),
{
    let mut out: Vec<OutputColumn> = Vec::new();
    if group_contains(group, GroupColumn::Day) {
        out.push(OutputColumn::Season);
        out.push(OutputColumn::Day);
    } else if group_contains(group, GroupColumn::Season) {
        out.push(OutputColumn::Season);
    }
    if group_contains(group, GroupColumn::Game) {
        out.push(OutputColumn::GameId);
    }
    if group_contains(group, GroupColumn::Player) {
        out.push(OutputColumn::PlayerId);
    }
    if (group_contains(group, GroupColumn::Player) && names) || group_contains(
        group,
        GroupColumn::PlayerName,
    ) {
        out.push(OutputColumn::PlayerName);
    }
    if group_contains(group, GroupColumn::Team) {
        out.push(OutputColumn::TeamId);
        if names {
            out.push(OutputColumn::TeamName);
        }
    }
    if group_contains(group, GroupColumn::League) {
        out.push(OutputColumn::LeagueId);
    }
    let ghost prefix = out@;
    let mut i: usize = 0;
    while i < fields.len()
        invariant
            i <= fields@.len(),
            out@ == prefix + fields@.take(i as int).map_values(
                |k: StatKey| OutputColumn::Stat(k),
            ),
        decreases fields@.len() - i,
    {
        out.push(OutputColumn::Stat(fields[i]));
        proof {
            assert(fields@.take(i + 1).map_values(|k: StatKey| OutputColumn::Stat(k)) =~= fields@
                .take(i as int).map_values(|k: StatKey| OutputColumn::Stat(k)).push(
                OutputColumn::Stat(fields@[i as int]),
            ));
        }
        i = i + 1;
    }
    proof {
        assert(fields@.take(fields@.len() as int) =~= fields@);
        assert(out@ =~= output_columns_spec(group@, fields@, names));
    }
    out
}

} // verus!
