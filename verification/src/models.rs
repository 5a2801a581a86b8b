//! The data model: entity kinds, domain table rows, and the typed views
//! of upstream documents that workers project.

use vstd::prelude::*;
use vstd::string::StringSliceAdditionalSpecFns;

verus! {

/// The closed set of archived document kinds. Each kind maps to a 16-bit
/// code that is stable across releases.
#[derive(Clone, Copy, Debug, PartialEq, Eq, Structural, Hash)]
pub enum EntityKind {
    State,
    League,
    Team,
    Player,
    Game,
    Time,
    Nouns,
    Adjectives,
    PlayerLite,
    TeamLite,
    News,
    Spotlight,
    Election,
    GamesEndpoint,
    PostseasonBracket,
    Message,
    Schedule,
    Talk,
    TalkBatting,
    TalkPitching,
    TalkBaserunning,
    TalkDefense,
    PlayerFeed,
    TeamFeed,
    Season,
    Day,
    SuperstarGames,
}

/// The stable 16-bit code of a kind.
pub open spec fn kind_code(k: EntityKind) -> u16 {
    match k {
        EntityKind::State => 1,
        EntityKind::League => 2,
        EntityKind::Team => 3,
        EntityKind::Player => 4,
        EntityKind::Game => 5,
        EntityKind::Time => 6,
        EntityKind::Nouns => 7,
        EntityKind::Adjectives => 8,
        EntityKind::PlayerLite => 9,
        EntityKind::TeamLite => 10,
        EntityKind::News => 11,
        EntityKind::Spotlight => 12,
        EntityKind::Election => 13,
        EntityKind::GamesEndpoint => 14,
        EntityKind::PostseasonBracket => 15,
        EntityKind::Message => 16,
        EntityKind::Schedule => 17,
        EntityKind::Talk => 18,
        EntityKind::TalkBatting => 19,
        EntityKind::TalkPitching => 20,
        EntityKind::TalkBaserunning => 21,
        EntityKind::TalkDefense => 22,
        EntityKind::PlayerFeed => 23,
        EntityKind::TeamFeed => 24,
        EntityKind::Season => 25,
        EntityKind::Day => 26,
        EntityKind::SuperstarGames => 27,
    }
}

impl EntityKind {
    /// The code this kind is stored under.
    pub fn as_u16(&self) -> (r: u16)
        ensures
            r == kind_code(*self),
    {
        match self {
            EntityKind::State => 1,
            EntityKind::League => 2,
            EntityKind::Team => 3,
            EntityKind::Player => 4,
            EntityKind::Game => 5,
            EntityKind::Time => 6,
            EntityKind::Nouns => 7,
            EntityKind::Adjectives => 8,
            EntityKind::PlayerLite => 9,
            EntityKind::TeamLite => 10,
            EntityKind::News => 11,
            EntityKind::Spotlight => 12,
            EntityKind::Election => 13,
            EntityKind::GamesEndpoint => 14,
            EntityKind::PostseasonBracket => 15,
            EntityKind::Message => 16,
            EntityKind::Schedule => 17,
            EntityKind::Talk => 18,
            EntityKind::TalkBatting => 19,
            EntityKind::TalkPitching => 20,
            EntityKind::TalkBaserunning => 21,
            EntityKind::TalkDefense => 22,
            EntityKind::PlayerFeed => 23,
            EntityKind::TeamFeed => 24,
            EntityKind::Season => 25,
            EntityKind::Day => 26,
            EntityKind::SuperstarGames => 27,
        }
    }

    /// The kind stored under a code, if the code is assigned.
    pub fn from_u16(code: u16) -> (r: Option<EntityKind>)
        ensures
            r matches Some(k) ==> kind_code(k) == code,
            r is None <==> (code == 0 || code > 27),
    {
        match code {
            1 => Some(EntityKind::State),
            2 => Some(EntityKind::League),
            3 => Some(EntityKind::Team),
            4 => Some(EntityKind::Player),
            5 => Some(EntityKind::Game),
            6 => Some(EntityKind::Time),
            7 => Some(EntityKind::Nouns),
            8 => Some(EntityKind::Adjectives),
            9 => Some(EntityKind::PlayerLite),
            10 => Some(EntityKind::TeamLite),
            11 => Some(EntityKind::News),
            12 => Some(EntityKind::Spotlight),
            13 => Some(EntityKind::Election),
            14 => Some(EntityKind::GamesEndpoint),
            15 => Some(EntityKind::PostseasonBracket),
            16 => Some(EntityKind::Message),
            17 => Some(EntityKind::Schedule),
            18 => Some(EntityKind::Talk),
            19 => Some(EntityKind::TalkBatting),
            20 => Some(EntityKind::TalkPitching),
            21 => Some(EntityKind::TalkBaserunning),
            22 => Some(EntityKind::TalkDefense),
            23 => Some(EntityKind::PlayerFeed),
            24 => Some(EntityKind::TeamFeed),
            25 => Some(EntityKind::Season),
            26 => Some(EntityKind::Day),
            27 => Some(EntityKind::SuperstarGames),
            _ => None,
        }
    }
}

/// Codes round-trip: every kind is recovered from its own code.
pub proof fn lemma_kind_code_round_trip(k: EntityKind)
    ensures
        1 <= kind_code(k) <= 27,
{
}

/// One row of the `teams` projection.
pub struct DbTeam {
    pub team_id: String,
    pub league_id: Option<String>,
    pub name: String,
    pub location: String,
    pub full_location: String,
    pub emoji: String,
    pub color: String,
    pub abbreviation: String,
}

/// One row of the `leagues` projection.
pub struct DbLeague {
    pub league_id: String,
    pub league_type: String,
    pub name: String,
    pub emoji: String,
    pub color: String,
}

/// One row of the `games` projection.
pub struct DbGame {
    pub game_id: String,
    pub season: i32,
    pub day: i32,
    pub home_team_id: String,
    pub away_team_id: String,
    pub state: String,
    pub event_count: i32,
}

/// The fields a team upsert writes.
pub struct DbTeamSaveModel {
    pub team_id: String,
    pub league_id: Option<String>,
    pub location: String,
    pub name: String,
    pub full_location: String,
    pub emoji: String,
    pub color: String,
    pub abbreviation: String,
}

/// The fields a league upsert writes.
pub struct DbLeagueSaveModel {
    pub league_id: String,
    pub league_type: String,
    pub name: String,
    pub color: String,
    pub emoji: String,
}

/// The filter of a player-stats query: a half-open `(season, day)` window
/// and optional player and team restrictions.
pub struct GetPlayerStatsQuery {
    pub start: Option<(i32, i32)>,
    pub end: Option<(i32, i32)>,
    pub player: Option<String>,
    pub team: Option<String>,
}

/// The (empty) filter of the team listing.
pub struct GetTeamsQuery {}

/// The (empty) filter of the league listing.
pub struct GetLeaguesQuery {}

/// The season whose percentile bundle is asked for.
pub struct LeagueAggregateQuery {
    pub season: i32,
}

/// The season whose league averages are asked for.
pub struct LeagueAveragesQuery {
    pub season: i16,
}

/// One scorigami row: a final score pair, how often it happened, and the
/// first game that produced it.
pub struct ScorigamiEntry {
    pub min: i32,
    pub max: i32,
    pub count: i32,
    pub first: String,
}

/// Summed stats of one player on one team.
pub struct ApiPlayerStats {
    pub player_id: String,
    pub team_id: String,
    pub stats: Vec<(String, i32)>,
}

/// One flattened per-game stat row, as the player-stats endpoint reads
/// them: a team, a player, and the row's integer stat members.
pub struct StatsInputRow {
    pub team_id: String,
    pub player_id: String,
    pub stats: Vec<(String, i64)>,
}

/// This row belongs to the `(team, player)` group.
pub open spec fn row_in_group(r: StatsInputRow, team: Seq<char>, player: Seq<char>) -> bool {
    r.team_id@ == team && r.player_id@ == player
}

/// Some row belongs to the group.
pub open spec fn group_present(rows: Seq<StatsInputRow>, team: Seq<char>, player: Seq<char>) -> bool {
    exists|i: int| 0 <= i < rows.len() && row_in_group(#[trigger] rows[i], team, player)
}

/// Some member of this row carries the stat key.
pub open spec fn row_has_key(r: StatsInputRow, key: Seq<char>) -> bool {
    exists|j: int| 0 <= j < r.stats@.len() && (#[trigger] r.stats@[j]).0@ == key
}

/// Some row of the group carries the stat key.
pub open spec fn group_has_key(
    rows: Seq<StatsInputRow>,
    team: Seq<char>,
    player: Seq<char>,
    key: Seq<char>,
) -> bool {
    exists|i: int|
        0 <= i < rows.len() && row_in_group(#[trigger] rows[i], team, player) && row_has_key(
            rows[i],
            key,
        )
}

/// Some output group carries the pair.
pub open spec fn group_listed(out: Seq<ApiPlayerStats>, team: Seq<char>, player: Seq<char>) -> bool {
    exists|g: int|
        0 <= g < out.len() && (#[trigger] out[g]).team_id@ == team && out[g].player_id@ == player
}

/// Some stat column carries the key.
pub open spec fn stat_key_listed(entries: Seq<(String, i32)>, key: Seq<char>) -> bool {
    exists|j: int| 0 <= j < entries.len() && (#[trigger] entries[j]).0@ == key
}

/// Clamp to the 32-bit range: sums saturate rather than wrap.
pub open spec fn sat32(x: int) -> int {
    if x > i32::MAX {
        i32::MAX as int
    } else if x < i32::MIN {
        i32::MIN as int
    } else {
        x
    }
}

/// Fold one row's members matching the key into the accumulator.
pub open spec fn row_key_sum(entries: Seq<(String, i64)>, key: Seq<char>, acc: int) -> int
    decreases entries.len(),
{
    if entries.len() == 0 {
        acc
    } else {
        row_key_sum(
            entries.drop_first(),
            key,
            if entries[0].0@ == key {
                sat32(acc + entries[0].1)
            } else {
                acc
            },
        )
    }
}

/// The group's sum for one stat key: every matching member of every row
/// of the group folded in row order, saturating at the 32-bit bounds.
pub open spec fn group_key_sum(
    rows: Seq<StatsInputRow>,
    team: Seq<char>,
    player: Seq<char>,
    key: Seq<char>,
    acc: int,
) -> int
    decreases rows.len(),
{
    if rows.len() == 0 {
        acc
    } else {
        group_key_sum(
            rows.drop_first(),
            team,
            player,
            key,
            if row_in_group(rows[0], team, player) {
                row_key_sum(rows[0].stats@, key, acc)
            } else {
                acc
            },
        )
    }
}

/// The group's sum for one stat key.
fn sum_group_key(rows: &Vec<StatsInputRow>, team: &String, player: &String, key: &String) -> (r:
    i32)
    ensures
        r as int == group_key_sum(rows@, team@, player@, key@, 0),
{
    let mut acc: i32 = 0;
    let mut i: usize = 0;
    proof {
        assert(rows@.skip(0) =~= rows@);
    }
    while i < rows.len()
        invariant
            i <= rows@.len(),
            group_key_sum(rows@, team@, player@, key@, 0) == group_key_sum(
                rows@.skip(i as int),
                team@,
                player@,
                key@,
                acc as int,
            ),
        decreases rows@.len() - i,
    {
        let row = &rows[i];
        proof {
            assert(rows@.skip(i as int)[0] == rows@[i as int]);
            assert(rows@.skip(i as int).drop_first() =~= rows@.skip(i + 1));
        }
        if crate::store::string_eq(&row.team_id, team) && crate::store::string_eq(
            &row.player_id,
            player,
        ) {
            let ghost acc_in = acc as int;
            let mut j: usize = 0;
            proof {
                assert(row.stats@.skip(0) =~= row.stats@);
            }
            while j < row.stats.len()
                invariant
                    j <= row.stats@.len(),
                    row_key_sum(row.stats@, key@, acc_in) == row_key_sum(
                        row.stats@.skip(j as int),
                        key@,
                        acc as int,
                    ),
                decreases row.stats@.len() - j,
            {
                proof {
                    assert(row.stats@.skip(j as int)[0] == row.stats@[j as int]);
                    assert(row.stats@.skip(j as int).drop_first() =~= row.stats@.skip(j + 1));
                }
                let (k, v) = &row.stats[j];
                if crate::store::string_eq(k, key) {
                    let widened: i128 = (acc as i128) + (*v as i128);
                    acc = if widened > (i32::MAX as i128) {
                        i32::MAX
                    } else if widened < (i32::MIN as i128) {
                        i32::MIN
                    } else {
                        widened as i32
                    };
                }
                j = j + 1;
            }
            proof {
                assert(row.stats@.skip(row.stats@.len() as int) =~= Seq::<(String, i64)>::empty());
            }
        }
        i = i + 1;
    }
    proof {
        assert(rows@.skip(rows@.len() as int) =~= Seq::<StatsInputRow>::empty());
    }
    acc
}

/// Some listed pair has these team and player characters.
pub open spec fn pair_listed(pairs: Seq<(String, String)>, team: Seq<char>, player: Seq<char>) -> bool {
    exists|g: int|
        0 <= g < pairs.len() && (#[trigger] pairs[g]).0@ == team && pairs[g].1@ == player
}

/// The distinct `(team, player)` pairs of the rows, in first-observation
/// order.
fn collect_pairs(rows: &Vec<StatsInputRow>) -> (r: Vec<(String, String)>)
    ensures
        forall|i: int|
            0 <= i < rows@.len() ==> pair_listed(
                r@,
                (#[trigger] rows@[i]).team_id@,
                rows@[i].player_id@,
            ),
        forall|g: int|
            0 <= g < r@.len() ==> group_present(rows@, (#[trigger] r@[g]).0@, r@[g].1@),
        forall|g1: int, g2: int|
            0 <= g1 < g2 < r@.len() ==> !((#[trigger] r@[g1]).0@ == (#[trigger] r@[g2]).0@
                && r@[g1].1@ == r@[g2].1@),
{
    let mut out: Vec<(String, String)> = Vec::new();
    let mut i: usize = 0;
    while i < rows.len()
        invariant
            i <= rows@.len(),
            forall|i2: int|
                0 <= i2 < i ==> pair_listed(
                    out@,
                    (#[trigger] rows@[i2]).team_id@,
                    rows@[i2].player_id@,
                ),
            forall|g: int|
                0 <= g < out@.len() ==> group_present(rows@, (#[trigger] out@[g]).0@, out@[g].1@),
            forall|g1: int, g2: int|
                0 <= g1 < g2 < out@.len() ==> !((#[trigger] out@[g1]).0@ == (
                #[trigger] out@[g2]).0@ && out@[g1].1@ == out@[g2].1@),
        decreases rows@.len() - i,
    {
        let row = &rows[i];
        let ghost gt = rows@[i as int].team_id@;
        let ghost gp = rows@[i as int].player_id@;
        let ghost before = out@;
        let mut seen = false;
        let mut g: usize = 0;
        loop
            invariant
                g <= out@.len(),
                out@ == before,
                row.team_id@ == gt,
                row.player_id@ == gp,
                !seen ==> forall|g2: int|
                    0 <= g2 < g ==> !((#[trigger] out@[g2]).0@ == gt && out@[g2].1@ == gp),
                seen ==> pair_listed(out@, gt, gp),
            ensures
                out@ == before,
                seen == pair_listed(out@, gt, gp),
            decreases out@.len() - g,
        {
            if g >= out.len() {
                proof {
                    if !seen && pair_listed(out@, gt, gp) {
                        let g0 = choose|g0: int|
                            0 <= g0 < out@.len() && (#[trigger] out@[g0]).0@ == gt && out@[g0].1@
                                == gp;
                        assert(false);
                    }
                }
                break;
            }
            if crate::store::string_eq(&out[g].0, &row.team_id) && crate::store::string_eq(
                &out[g].1,
                &row.player_id,
            ) {
                seen = true;
                break;
            }
            g = g + 1;
        }
        if !seen {
            out.push(
                (crate::queries::clone_string(&row.team_id), crate::queries::clone_string(
                    &row.player_id,
                )),
            );
            proof {
                assert(out@.drop_last() =~= before);
                assert(out@[out@.len() - 1].0@ == rows@[i as int].team_id@);
            }
        }
        proof {
            assert forall|i2: int| 0 <= i2 < i + 1 implies pair_listed(
                out@,
                (#[trigger] rows@[i2]).team_id@,
                rows@[i2].player_id@,
            ) by {
                if i2 < i {
                    let g0 = choose|g0: int|
                        0 <= g0 < before.len() && (#[trigger] before[g0]).0@
                            == rows@[i2].team_id@ && before[g0].1@ == rows@[i2].player_id@;
                    assert(out@[g0].0@ == rows@[i2].team_id@ && out@[g0].1@
                        == rows@[i2].player_id@);
                } else {
                    if !seen {
                        assert(out@[out@.len() - 1].0@ == rows@[i2].team_id@ && out@[out@.len()
                            - 1].1@ == rows@[i2].player_id@);
                    }
                }
            }
            assert forall|g0: int| 0 <= g0 < out@.len() implies group_present(
                rows@,
                (#[trigger] out@[g0]).0@,
                out@[g0].1@,
            ) by {
                if g0 >= before.len() {
                    assert(row_in_group(rows@[i as int], out@[g0].0@, out@[g0].1@));
                }
            }
        }
        i = i + 1;
    }
    out
}

/// The distinct stat keys the group's rows carry, in first-observation
/// order.
fn collect_group_keys(rows: &Vec<StatsInputRow>, team: &String, player: &String) -> (r: Vec<
    String,
>)
    ensures
        forall|j: int|
            0 <= j < r@.len() ==> group_has_key(rows@, team@, player@, (#[trigger] r@[j])@),
        forall|i: int, j: int|
            0 <= i < rows@.len() && row_in_group(#[trigger] rows@[i], team@, player@) && 0 <= j
                < rows@[i].stats@.len() ==> crate::store::id_listed(
                r@,
                (#[trigger] rows@[i].stats@[j]).0@,
            ),
        forall|j1: int, j2: int| 0 <= j1 < j2 < r@.len() ==> r@[j1]@ != r@[j2]@,
{
    let mut out: Vec<String> = Vec::new();
    let mut i: usize = 0;
    while i < rows.len()
        invariant
            i <= rows@.len(),
            forall|j: int|
                0 <= j < out@.len() ==> group_has_key(rows@, team@, player@, (#[trigger] out@[j])@),
            forall|i2: int, j: int|
                0 <= i2 < i && row_in_group(#[trigger] rows@[i2], team@, player@) && 0 <= j
                    < rows@[i2].stats@.len() ==> crate::store::id_listed(
                    out@,
                    (#[trigger] rows@[i2].stats@[j]).0@,
                ),
            forall|j1: int, j2: int| 0 <= j1 < j2 < out@.len() ==> out@[j1]@ != out@[j2]@,
        decreases rows@.len() - i,
    {
        let row = &rows[i];
        if crate::store::string_eq(&row.team_id, team) && crate::store::string_eq(
            &row.player_id,
            player,
        ) {
            let mut j: usize = 0;
            while j < row.stats.len()
                invariant
                    j <= rows@[i as int].stats@.len(),
                    i < rows@.len(),
                    row_in_group(rows@[i as int], team@, player@),
                    row == rows@[i as int],
                    forall|jj: int|
                        0 <= jj < out@.len() ==> group_has_key(
                            rows@,
                            team@,
                            player@,
                            (#[trigger] out@[jj])@,
                        ),
                    forall|i2: int, jj: int|
                        0 <= i2 < i && row_in_group(#[trigger] rows@[i2], team@, player@) && 0 <= jj
                            < rows@[i2].stats@.len() ==> crate::store::id_listed(
                            out@,
                            (#[trigger] rows@[i2].stats@[jj]).0@,
                        ),
                    forall|jj: int|
                        0 <= jj < j ==> crate::store::id_listed(
                            out@,
                            (#[trigger] rows@[i as int].stats@[jj]).0@,
                        ),
                    forall|j1: int, j2: int| 0 <= j1 < j2 < out@.len() ==> out@[j1]@ != out@[j2]@,
                decreases rows@[i as int].stats@.len() - j,
            {
                let ghost before = out@;
                let key = &row.stats[j].0;
                let present = crate::store::contains_id(&out, key);
                if !present {
                    out.push(crate::queries::clone_string(key));
                    proof {
                        assert(out@.drop_last() =~= before);
                    }
                }
                proof {
                    assert forall|jj: int| 0 <= jj < out@.len() implies group_has_key(
                        rows@,
                        team@,
                        player@,
                        (#[trigger] out@[jj])@,
                    ) by {
                        if jj >= before.len() {
                            assert(row_has_key(rows@[i as int], out@[jj]@));
                            assert(row_in_group(rows@[i as int], team@, player@));
                        }
                    }
                    assert forall|i2: int, jj: int|
                        0 <= i2 < i && row_in_group(#[trigger] rows@[i2], team@, player@) && 0 <= jj
                            < rows@[i2].stats@.len() implies crate::store::id_listed(
                        out@,
                        (#[trigger] rows@[i2].stats@[jj]).0@,
                    ) by {
                        crate::store::lemma_id_listed_grow(
                            before,
                            out@,
                            rows@[i2].stats@[jj].0@,
                        );
                    }
                    assert forall|jj: int| 0 <= jj < j + 1 implies crate::store::id_listed(
                        out@,
                        (#[trigger] rows@[i as int].stats@[jj]).0@,
                    ) by {
                        if jj < j {
                            crate::store::lemma_id_listed_grow(
                                before,
                                out@,
                                rows@[i as int].stats@[jj].0@,
                            );
                        } else {
                            if present {
                                crate::store::lemma_id_listed_grow(
                                    before,
                                    out@,
                                    rows@[i as int].stats@[jj].0@,
                                );
                            } else {
                                assert(out@[out@.len() - 1]@ == rows@[i as int].stats@[jj].0@);
                            }
                        }
                    }
                }
                j = j + 1;
            }
        }
        i = i + 1;
    }
    out
}

/// Group per-game stat rows by team and player and sum each stat field:
/// one output group per observed pair, in first-observation order, each
/// stat key once in first-observation order, its value the group's sum
/// saturated at the 32-bit bounds.
pub fn aggregate_player_stats(rows: &Vec<StatsInputRow>) -> (r: Vec<ApiPlayerStats>)
    ensures
        forall|i: int|
            0 <= i < rows@.len() ==> group_listed(
                r@,
                (#[trigger] rows@[i]).team_id@,
                rows@[i].player_id@,
            ),
        forall|g: int|
            0 <= g < r@.len() ==> group_present(rows@, (#[trigger] r@[g]).team_id@, r@[g].player_id@),
        forall|g1: int, g2: int|
            0 <= g1 < g2 < r@.len() ==> !((#[trigger] r@[g1]).team_id@ == (
            #[trigger] r@[g2]).team_id@ && r@[g1].player_id@ == r@[g2].player_id@),
        forall|g: int, j: int|
            0 <= g < r@.len() && 0 <= j < (#[trigger] r@[g]).stats@.len() ==> (group_has_key(
                rows@,
                r@[g].team_id@,
                r@[g].player_id@,
                (#[trigger] r@[g].stats@[j]).0@,
            ) && r@[g].stats@[j].1 as int == group_key_sum(
                rows@,
                r@[g].team_id@,
                r@[g].player_id@,
                r@[g].stats@[j].0@,
                0,
            )),
        forall|g: int, j1: int, j2: int|
            0 <= g < r@.len() && 0 <= j1 < j2 < r@[g].stats@.len() ==> (
            #[trigger] r@[g].stats@[j1]).0@ != (#[trigger] r@[g].stats@[j2]).0@,
        forall|g: int, i: int, j: int|
            0 <= g < r@.len() && 0 <= i < rows@.len() && row_in_group(
                #[trigger] rows@[i],
                (#[trigger] r@[g]).team_id@,
                r@[g].player_id@,
            ) && 0 <= j < rows@[i].stats@.len() ==> stat_key_listed(
                r@[g].stats@,
                (#[trigger] rows@[i].stats@[j]).0@,
            ),
{
    let pairs = collect_pairs(rows);
    let mut out: Vec<ApiPlayerStats> = Vec::new();
    let mut g: usize = 0;
    while g < pairs.len()
        invariant
            g <= pairs@.len(),
            out@.len() == g,
            forall|i: int|
                0 <= i < rows@.len() ==> pair_listed(
                    pairs@,
                    (#[trigger] rows@[i]).team_id@,
                    rows@[i].player_id@,
                ),
            forall|g0: int|
                0 <= g0 < pairs@.len() ==> group_present(
                    rows@,
                    (#[trigger] pairs@[g0]).0@,
                    pairs@[g0].1@,
                ),
            forall|g1: int, g2: int|
                0 <= g1 < g2 < pairs@.len() ==> !((#[trigger] pairs@[g1]).0@ == (
                #[trigger] pairs@[g2]).0@ && pairs@[g1].1@ == pairs@[g2].1@),
            forall|g0: int|
                0 <= g0 < out@.len() ==> (#[trigger] out@[g0]).team_id@ == pairs@[g0].0@
                    && out@[g0].player_id@ == pairs@[g0].1@,
            forall|g0: int, j: int|
                0 <= g0 < out@.len() && 0 <= j < (#[trigger] out@[g0]).stats@.len() ==> (
                group_has_key(
                    rows@,
                    out@[g0].team_id@,
                    out@[g0].player_id@,
                    (#[trigger] out@[g0].stats@[j]).0@,
                ) && out@[g0].stats@[j].1 as int == group_key_sum(
                    rows@,
                    out@[g0].team_id@,
                    out@[g0].player_id@,
                    out@[g0].stats@[j].0@,
                    0,
                )),
            forall|g0: int, j1: int, j2: int|
                0 <= g0 < out@.len() && 0 <= j1 < j2 < out@[g0].stats@.len() ==> (
                #[trigger] out@[g0].stats@[j1]).0@ != (#[trigger] out@[g0].stats@[j2]).0@,
            forall|g0: int, i: int, j: int|
                0 <= g0 < out@.len() && 0 <= i < rows@.len() && row_in_group(
                    #[trigger] rows@[i],
                    (#[trigger] out@[g0]).team_id@,
                    out@[g0].player_id@,
                ) && 0 <= j < rows@[i].stats@.len() ==> stat_key_listed(
                    out@[g0].stats@,
                    (#[trigger] rows@[i].stats@[j]).0@,
                ),
        decreases pairs@.len() - g,
    {
        let t = &pairs[g].0;
        let p = &pairs[g].1;
        let ghost gt = pairs@[g as int].0@;
        let ghost gp = pairs@[g as int].1@;
        let keys = collect_group_keys(rows, t, p);
        let mut stats: Vec<(String, i32)> = Vec::new();
        let mut j: usize = 0;
        while j < keys.len()
            invariant
                j <= keys@.len(),
                stats@.len() == j,
                t@ == gt,
                p@ == gp,
                forall|jj: int|
                    0 <= jj < stats@.len() ==> ((#[trigger] stats@[jj]).0@ == keys@[jj]@
                        && stats@[jj].1 as int == group_key_sum(rows@, gt, gp, keys@[jj]@, 0)),
            decreases keys@.len() - j,
        {
            let v = sum_group_key(rows, t, p, &keys[j]);
            stats.push((crate::queries::clone_string(&keys[j]), v));
            j = j + 1;
        }
        let ghost gstats = stats@;
        let ghost before = out@;
        out.push(
            ApiPlayerStats {
                player_id: crate::queries::clone_string(p),
                team_id: crate::queries::clone_string(t),
                stats,
            },
        );
        proof {
            assert(out@.drop_last() =~= before);
            assert(out@[g as int].team_id@ == gt && out@[g as int].player_id@ == gp
                && out@[g as int].stats@ == gstats);
            assert forall|jj: int|
                0 <= jj < gstats.len() implies (group_has_key(
                rows@,
                gt,
                gp,
                (#[trigger] gstats[jj]).0@,
            ) && gstats[jj].1 as int == group_key_sum(rows@, gt, gp, gstats[jj].0@, 0)) by {
                assert(gstats[jj].0@ == keys@[jj]@);
            }
            assert forall|i: int, jj: int|
                0 <= i < rows@.len() && row_in_group(#[trigger] rows@[i], gt, gp) && 0 <= jj
                    < rows@[i].stats@.len() implies stat_key_listed(
                gstats,
                (#[trigger] rows@[i].stats@[jj]).0@,
            ) by {
                let k0 = choose|k0: int|
                    0 <= k0 < keys@.len() && (#[trigger] keys@[k0])@ == rows@[i].stats@[jj].0@;
                assert(gstats[k0].0@ == rows@[i].stats@[jj].0@);
            }
        }
        g = g + 1;
    }
    proof {
        assert forall|i: int| 0 <= i < rows@.len() implies group_listed(
            out@,
            (#[trigger] rows@[i]).team_id@,
            rows@[i].player_id@,
        ) by {
            let g0 = choose|g0: int|
                0 <= g0 < pairs@.len() && (#[trigger] pairs@[g0]).0@ == rows@[i].team_id@
                    && pairs@[g0].1@ == rows@[i].player_id@;
            assert(out@[g0].team_id@ == rows@[i].team_id@ && out@[g0].player_id@
                == rows@[i].player_id@);
        }
    }
    out
}

/// A point of the season calendar.
#[derive(Clone, Copy, Debug, PartialEq, Eq, Structural)]
pub struct SeasonDay {
    pub season: i32,
    pub day: i32,
}

impl SeasonDay {
    pub fn new(season: i32, day: i32) -> (r: SeasonDay)
        ensures
            r.season == season,
            r.day == day,
    {
        SeasonDay { season, day }
    }

    /// The pair the query layer filters by.
    pub fn into_pair(&self) -> (r: (i32, i32))
        ensures
            r == (self.season, self.day),
    {
        (self.season, self.day)
    }

    /// Parse a "season,day" field: the text before the first comma and
    /// the text after it, each a decimal integer that fits 32 bits.
    pub fn from_str(s: &str) -> (r: Option<SeasonDay>)
        ensures
            r matches Some(sd) ==> (exists|p: int|
                0 <= p < s.spec_bytes().len() && #[trigger] s.spec_bytes()[p] == 44 && (forall|
                    q: int,
                | 0 <= q < p ==> s.spec_bytes()[q] != 44) && int_field_val(
                    s.spec_bytes().take(p),
                ) == Some(sd.season as int) && int_field_val(s.spec_bytes().skip(p + 1)) == Some(
                    sd.day as int,
                )),
            (forall|q: int| 0 <= q < s.spec_bytes().len() ==> s.spec_bytes()[q] != 44) ==> r
                is None,
            forall|p: int|
                (0 <= p < s.spec_bytes().len() && #[trigger] s.spec_bytes()[p] == 44 && (forall|
                    q: int,
                | 0 <= q < p ==> s.spec_bytes()[q] != 44) && (int_field_val(
                    s.spec_bytes().take(p),
                ) matches Some(sv) && i32::MIN <= sv <= i32::MAX) && (int_field_val(
                    s.spec_bytes().skip(p + 1),
                ) matches Some(dv) && i32::MIN <= dv <= i32::MAX)) ==> (r matches Some(sd)
                    && sd.season as int == int_field_val(s.spec_bytes().take(p))->0 && sd.day
                    as int == int_field_val(s.spec_bytes().skip(p + 1))->0),
    {
        let b = s.as_bytes();
        let n = b.len();
        let mut p: usize = 0;
        loop
            invariant
                n == b@.len(),
                b@ == s.spec_bytes(),
                p <= n,
                forall|q: int| 0 <= q < p ==> b@[q] != 44,
            ensures
                (p < n && b@[p as int] == 44) || (p == n && forall|q: int|
                    0 <= q < p ==> b@[q] != 44),
            decreases n - p,
        {
            if p >= n {
                break;
            }
            if b[p] == 44 {
                break;
            }
            p = p + 1;
        }
        if p >= n {
            return None;
        }
        let left = vstd::slice::slice_subrange(b, 0, p);
        let right = vstd::slice::slice_subrange(b, p + 1, n);
        proof {
            assert(left@ =~= s.spec_bytes().take(p as int));
            assert(right@ =~= s.spec_bytes().skip(p + 1));
        }
        let parsed = (parse_i32_bytes(left), parse_i32_bytes(right));
        proof {
            assert forall|pp: int|
                0 <= pp < s.spec_bytes().len() && #[trigger] s.spec_bytes()[pp] == 44 && (forall|
                    q: int,
                | 0 <= q < pp ==> s.spec_bytes()[q] != 44) implies pp == p as int by {
                if pp < p as int {
                    assert(b@[pp] != 44);
                } else if pp > p as int {
                    assert(s.spec_bytes()[p as int] != 44);
                }
            }
        }
        match parsed {
            (Some(season), Some(day)) => Some(SeasonDay { season, day }),
            _ => None,
        }
    }
}

/// Is this byte an ASCII decimal digit?
pub open spec fn is_digit(b: u8) -> bool {
    48 <= b <= 57
}

/// A nonempty run of decimal digits.
pub open spec fn all_digits(s: Seq<u8>) -> bool {
    s.len() > 0 && forall|i: int| 0 <= i < s.len() ==> is_digit(#[trigger] s[i])
}

/// The value of a run of decimal digits.
pub open spec fn digits_val(s: Seq<u8>) -> int
    decreases s.len(),
{
    if s.len() == 0 {
        0
    } else {
        digits_val(s.drop_last()) * 10 + (s.last() - 48)
    }
}

/// The integer a field of text denotes: an optional minus sign and a
/// nonempty run of digits, unbounded.
pub open spec fn int_field_val(s: Seq<u8>) -> Option<int> {
    if s.len() > 0 && s[0] == 45 {
        if all_digits(s.skip(1)) {
            Some(-digits_val(s.skip(1)))
        } else {
            None
        }
    } else if all_digits(s) {
        Some(digits_val(s))
    } else {
        None
    }
}

proof fn lemma_digits_val_nonneg(s: Seq<u8>)
    requires
        forall|i: int| 0 <= i < s.len() ==> is_digit(#[trigger] s[i]),
    ensures
        digits_val(s) >= 0,
    decreases s.len(),
{
    if s.len() > 0 {
        let d = s.drop_last();
        assert(forall|i: int| 0 <= i < d.len() ==> #[trigger] d[i] == s[i]);
        lemma_digits_val_nonneg(d);
    }
}

/// More digits never shrink the value.
proof fn lemma_digits_val_mono(s: Seq<u8>, i: int)
    requires
        0 <= i <= s.len(),
        forall|k: int| 0 <= k < s.len() ==> is_digit(#[trigger] s[k]),
    ensures
        digits_val(s.take(i)) <= digits_val(s),
    decreases s.len() - i,
{
    if i < s.len() {
        lemma_digits_val_mono(s, i + 1);
        let p = s.take(i + 1);
        assert(p.drop_last() =~= s.take(i));
        assert(forall|k: int| 0 <= k < p.len() ==> #[trigger] p[k] == s[k]);
        assert(forall|k: int| 0 <= k < s.take(i).len() ==> #[trigger] s.take(i)[k] == s[k]);
        lemma_digits_val_nonneg(s.take(i));
        assert(digits_val(s.take(i)) * 10 >= digits_val(s.take(i)));
    } else {
        assert(s.take(i) =~= s);
    }
}

/// Parse a decimal integer field into 32 bits: the field's value when the
/// text is well-formed and the value fits, nothing otherwise.
fn parse_i32_bytes(b: &[u8]) -> (r: Option<i32>)
    ensures
        r matches Some(v) ==> int_field_val(b@) == Some(v as int),
        r is None ==> (int_field_val(b@) is None || !(int_field_val(b@) matches Some(v)
            && i32::MIN <= v <= i32::MAX)),
{
    let n = b.len();
    let neg = n > 0 && b[0] == 45;
    let start: usize = if neg {
        1
    } else {
        0
    };
    let ghost digits = if neg {
        b@.skip(1)
    } else {
        b@
    };
    proof {
        assert(forall|k: int| 0 <= k < digits.len() ==> #[trigger] digits[k] == b@[k + start]);
    }
    if start >= n {
        proof {
            if neg {
                assert(b@.skip(1).len() == 0);
                assert(!all_digits(b@.skip(1)));
            } else {
                assert(b@.len() == 0);
                assert(!all_digits(b@));
            }
            assert(int_field_val(b@) is None);
        }
        return None;
    }
    let mut i: usize = start;
    while i < n
        invariant
            n == b@.len(),
            start <= i <= n,
            neg == (b@.len() > 0 && b@[0] == 45),
            start == if neg {
                1int
            } else {
                0int
            },
            forall|k: int| start <= k < i ==> is_digit(#[trigger] b@[k]),
        decreases n - i,
    {
        let c = b[i];
        if !(48 <= c && c <= 57) {
            proof {
                assert(!is_digit(b@[i as int]));
                if neg {
                    if all_digits(b@.skip(1)) {
                        assert(is_digit(b@.skip(1)[i - 1]));
                        assert(b@.skip(1)[i - 1] == b@[i as int]);
                    }
                } else {
                    if all_digits(b@) {
                        assert(is_digit(b@[i as int]));
                    }
                }
            }
            return None;
        }
        i = i + 1;
    }
    proof {
        assert(all_digits(digits)) by {
            assert(digits.len() > 0);
            assert forall|k: int| 0 <= k < digits.len() implies is_digit(#[trigger] digits[k]) by {
                assert(digits[k] == b@[k + start]);
            }
        }
    }
    let cap: i64 = 0x8000_0000;
    let mut acc: i64 = 0;
    let mut j: usize = start;
    proof {
        assert(b@.subrange(start as int, start as int) =~= digits.take(0));
    }
    while j < n
        invariant
            n == b@.len(),
            start <= j <= n,
            start == if neg {
                1int
            } else {
                0int
            },
            cap == 0x8000_0000,
            neg == (b@.len() > 0 && b@[0] == 45),
            digits == if neg {
                b@.skip(1)
            } else {
                b@
            },
            all_digits(digits),
            forall|k: int| start <= k < n ==> is_digit(#[trigger] b@[k]),
            forall|k: int| 0 <= k < digits.len() ==> #[trigger] digits[k] == b@[k + start],
            0 <= acc <= cap,
            acc == digits_val(digits.take(j - start)),
        decreases n - j,
    {
        let c = b[j];
        let ghost pre = digits.take(j - start);
        proof {
            assert(digits.take(j + 1 - start).drop_last() =~= pre);
            assert(digits.take(j + 1 - start).last() == digits[j - start]);
            assert(digits[j - start] == b@[j as int]);
        }
        acc = acc * 10 + ((c - 48) as i64);
        j = j + 1;
        if acc > cap {
            proof {
                assert(acc == digits_val(digits.take(j - start)));
                lemma_digits_val_mono(digits, j - start);
                assert(digits_val(digits) >= acc);
                assert(digits_val(digits) > 0x8000_0000);
                if neg {
                    assert(int_field_val(b@) == Some(-digits_val(digits)));
                    assert(-digits_val(digits) < i32::MIN);
                } else {
                    assert(int_field_val(b@) == Some(digits_val(digits)));
                    assert(digits_val(digits) > i32::MAX);
                }
            }
            return None;
        }
    }
    proof {
        assert(digits.take(n - start) =~= digits);
        assert(acc == digits_val(digits));
    }
    if neg {
        proof {
            assert(int_field_val(b@) == Some(-digits_val(b@.skip(1))));
        }
        Some((-acc) as i32)
    } else {
        if acc > cap - 1 {
            proof {
                assert(int_field_val(b@) == Some(digits_val(b@)));
            }
            return None;
        }
        proof {
            assert(int_field_val(b@) == Some(digits_val(b@)));
        }
        Some(acc as i32)
    }
}

/// The upstream state document: which leagues exist.
pub struct MmolbState {
    pub greater_leagues: Vec<String>,
    pub lesser_leagues: Vec<String>,
}

/// The upstream league document.
pub struct MmolbLeague {
    pub teams: Vec<String>,
    pub superstar_team: Option<String>,
    pub name: String,
    pub league_type: String,
    pub color: String,
    pub emoji: String,
}

/// One roster slot of a team document.
pub struct MmolbTeamPlayer {
    pub player_id: String,
    pub first_name: String,
    pub last_name: String,
    pub position_type: Option<String>,
}

/// The upstream team document, as workers read it.
pub struct MmolbTeam {
    pub name: String,
    pub league: Option<String>,
    pub location: String,
    pub full_location: String,
    pub color: String,
    pub emoji: String,
    pub abbreviation: String,
    pub players: Vec<MmolbTeamPlayer>,
}

/// The upstream player document, as workers read it.
pub struct MmolbPlayer {
    pub first_name: String,
    pub last_name: String,
}

/// One parsed game event, as the enrichment step reads it.
pub struct MmolbGameEvent {
    pub event: String,
    pub pitcher: Option<String>,
    pub batter: Option<String>,
    pub inning: i32,
    pub inning_side: i32,
}

/// The upstream clock document.
pub struct MmolbTime {
    pub season_day: i32,
    pub season_number: i32,
    pub season_status: String,
}

/// One game as a team schedule lists it.
pub struct MmolbGameByTeam {
    pub game_id: String,
    pub status: String,
    pub away_team_id: String,
    pub home_team_id: String,
}

/// One game row of a day document.
pub struct DayGame {
    pub game_id: Option<String>,
}

/// The upstream day document: the games scheduled on one day.
pub struct MmolbDay {
    pub games: Vec<DayGame>,
}

/// One game of a team schedule document.
pub struct TeamScheduleGame {
    pub day: i32,
    pub state: String,
    pub game_id: Option<String>,
}

/// A team schedule document.
pub struct TeamSchedule {
    pub games: Vec<TeamScheduleGame>,
}

/// The league ids the state document names: greater leagues first, then
/// lesser, in document order.
pub fn get_league_ids(state: &MmolbState) -> (r: Vec<String>)
    ensures
        r@.len() == state.greater_leagues@.len() + state.lesser_leagues@.len(),
        forall|i: int| 0 <= i < state.greater_leagues@.len() ==> (#[trigger] r@[i])@
            == state.greater_leagues@[i]@,
        forall|i: int| 0 <= i < state.lesser_leagues@.len()
            ==> r@[state.greater_leagues@.len() + i]@ == (#[trigger] state.lesser_leagues@[i])@,
{
    let mut out: Vec<String> = Vec::new();
    let mut i: usize = 0;
    while i < state.greater_leagues.len()
        invariant
            i <= state.greater_leagues@.len(),
            out@.len() == i,
            forall|k: int| 0 <= k < i ==> (#[trigger] out@[k])@ == state.greater_leagues@[k]@,
        decreases state.greater_leagues@.len() - i,
    {
        out.push(crate::queries::clone_string(&state.greater_leagues[i]));
        i = i + 1;
    }
    let mut j: usize = 0;
    while j < state.lesser_leagues.len()
        invariant
            j <= state.lesser_leagues@.len(),
            out@.len() == state.greater_leagues@.len() + j,
            forall|k: int| 0 <= k < state.greater_leagues@.len() ==> (#[trigger] out@[k])@
                == state.greater_leagues@[k]@,
            forall|k: int| 0 <= k < j ==> out@[state.greater_leagues@.len() + k]@ == (
            #[trigger] state.lesser_leagues@[k])@,
        decreases state.lesser_leagues@.len() - j,
    {
        out.push(crate::queries::clone_string(&state.lesser_leagues[j]));
        j = j + 1;
    }
    out
}

} // verus!
