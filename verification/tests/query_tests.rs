use chron::queries::{clamp_count, versions_page, PaginatedResult, SortOrder, VersionRow};

fn row(id: &str, t: i64) -> VersionRow {
    VersionRow {
        entity_id: String::from(id),
        valid_from: t,
        valid_to: None,
        hash: 0,
    }
}

fn five_rows() -> Vec<VersionRow> {
    vec![
        row("id10", 10),
        row("id20", 20),
        row("id30", 30),
        row("id40", 40),
        row("id50", 50),
    ]
}

fn ids(r: &PaginatedResult) -> Vec<i64> {
    r.items.iter().map(|x| x.valid_from).collect()
}

#[test]
fn keyset_pages_visit_every_row_once_and_stop() {
    let p1 = versions_page(five_rows(), None, 2, SortOrder::Asc);
    assert_eq!(ids(&p1), vec![10, 20]);
    let t1 = p1.next_page.unwrap();
    assert_eq!(t1.0, 20);
    assert_eq!(t1.1, "id20");

    let p2 = versions_page(five_rows(), Some(t1), 2, SortOrder::Asc);
    assert_eq!(ids(&p2), vec![30, 40]);
    let t2 = p2.next_page.unwrap();

    let p3 = versions_page(five_rows(), Some(t2), 2, SortOrder::Asc);
    assert_eq!(ids(&p3), vec![50]);
    assert!(p3.next_page.is_none());
}

#[test]
fn a_descending_scan_reverses_the_pivot_inequality() {
    let mut rows = five_rows();
    rows.reverse();
    let p1 = versions_page(rows, None, 2, SortOrder::Desc);
    assert_eq!(ids(&p1), vec![50, 40]);
    let t1 = p1.next_page.unwrap();
    let mut rows2 = five_rows();
    rows2.reverse();
    let p2 = versions_page(rows2, Some(t1), 10, SortOrder::Desc);
    assert_eq!(ids(&p2), vec![30, 20, 10]);
    assert!(p2.next_page.is_none());
}

#[test]
fn equal_timestamps_break_ties_by_entity_id() {
    let rows = vec![row("a", 10), row("b", 10), row("c", 10)];
    let p1 = versions_page(rows, Some((10, String::from("a"))), 10, SortOrder::Asc);
    let got: Vec<String> = p1.items.iter().map(|x| x.entity_id.clone()).collect();
    assert_eq!(got, vec![String::from("b"), String::from("c")]);
}

#[test]
fn counts_are_clamped_with_per_kind_defaults() {
    assert_eq!(clamp_count(None, true), 100);
    assert_eq!(clamp_count(None, false), 1000);
    assert_eq!(clamp_count(Some(5), true), 5);
    assert_eq!(clamp_count(Some(2000), false), 1000);
}
