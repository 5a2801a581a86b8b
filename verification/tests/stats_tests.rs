use chron::models::SeasonDay;
use chron::stats::{
    build_stats_select, dedup_preserving_order, output_columns, plan_stats_query, GroupColumn,
    OutputColumn, StatFilter, StatKey, StatsFormat, StatsRequest, STATS_COUNT_CAP,
};

fn empty_request() -> StatsRequest {
    StatsRequest {
        start: None,
        end: None,
        season: None,
        player: None,
        team: None,
        league: None,
        game: None,
        fields: vec![],
        group: vec![],
        format: None,
        sort: None,
        count: None,
        filter: vec![],
        names: false,
    }
}

#[test]
fn fields_keep_their_first_occurrence_in_order() {
    let mut fields = vec![
        StatKey::Singles,
        StatKey::Doubles,
        StatKey::Singles,
        StatKey::HomeRuns,
        StatKey::Doubles,
    ];
    dedup_preserving_order(&mut fields);
    assert_eq!(fields, vec![StatKey::Singles, StatKey::Doubles, StatKey::HomeRuns]);
}

#[test]
fn the_count_is_capped_and_defaulted() {
    let mut req = empty_request();
    req.count = Some(1_000_000);
    let (q, _) = plan_stats_query(req);
    assert_eq!(q.count, Some(STATS_COUNT_CAP));
    let (q2, _) = plan_stats_query(empty_request());
    assert_eq!(q2.count, Some(STATS_COUNT_CAP));
    let mut req3 = empty_request();
    req3.count = Some(7);
    let (q3, _) = plan_stats_query(req3);
    assert_eq!(q3.count, Some(7));
}

#[test]
fn a_bare_season_expands_to_a_half_open_window() {
    let mut req = empty_request();
    req.season = Some(3);
    req.start = Some(SeasonDay::new(9, 9));
    let (q, fmt) = plan_stats_query(req);
    assert_eq!(q.start, Some((3, 0)));
    assert_eq!(q.end, Some((4, 0)));
    assert_eq!(fmt, StatsFormat::Csv);
}

#[test]
fn grouping_by_day_carries_the_season() {
    let mut req = empty_request();
    req.group = vec![GroupColumn::Day, GroupColumn::Player];
    let (q, _) = plan_stats_query(req);
    assert!(q.group_day);
    assert!(!q.group_season);
    let sel = build_stats_select(q);
    assert_eq!(
        sel.group_by,
        vec![GroupColumn::Season, GroupColumn::Day, GroupColumn::Player]
    );
}

#[test]
fn the_team_join_comes_from_league_or_names() {
    let mut req = empty_request();
    req.league = Some(String::from("l1"));
    let (q, _) = plan_stats_query(req);
    let sel = build_stats_select(q);
    assert!(sel.join_teams);

    let mut req2 = empty_request();
    req2.group = vec![GroupColumn::Team];
    req2.names = true;
    let (q2, _) = plan_stats_query(req2);
    let sel2 = build_stats_select(q2);
    assert!(sel2.join_teams);
    assert!(sel2.select_team_names);

    let (q3, _) = plan_stats_query(empty_request());
    let sel3 = build_stats_select(q3);
    assert!(!sel3.join_teams);
}

#[test]
fn filters_and_sort_pass_through_the_builder() {
    let mut req = empty_request();
    req.fields = vec![StatKey::Wins];
    req.sort = Some(StatKey::Wins);
    req.filter = vec![(
        StatKey::Wins,
        StatFilter { gt: Some(0), lt: None, eq_to: None, lte: None, gte: None },
    )];
    let (q, _) = plan_stats_query(req);
    let sel = build_stats_select(q);
    assert_eq!(sel.fields, vec![StatKey::Wins]);
    assert_eq!(sel.sort, Some(StatKey::Wins));
    assert_eq!(sel.filters.len(), 1);
    assert_eq!(sel.filters[0].0, StatKey::Wins);
}

#[test]
fn the_output_schema_lists_group_columns_then_stats() {
    let group = vec![GroupColumn::Day, GroupColumn::Player, GroupColumn::Team];
    let fields = vec![StatKey::Singles, StatKey::Walks];
    let cols = output_columns(&group, &fields, true);
    assert_eq!(
        cols,
        vec![
            OutputColumn::Season,
            OutputColumn::Day,
            OutputColumn::PlayerId,
            OutputColumn::PlayerName,
            OutputColumn::TeamId,
            OutputColumn::TeamName,
            OutputColumn::Stat(StatKey::Singles),
            OutputColumn::Stat(StatKey::Walks),
        ]
    );
    let bare = output_columns(&vec![], &fields, false);
    assert_eq!(
        bare,
        vec![OutputColumn::Stat(StatKey::Singles), OutputColumn::Stat(StatKey::Walks)]
    );
}
