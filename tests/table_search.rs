use search_service::catalog::{ForeignKey, TableSearchInfo};
use search_service::table_search::{table_part, TableSearch, TableSearchError};

fn info(s: &str, n: &str) -> TableSearchInfo {
    TableSearchInfo::new(s.to_string(), n.to_string())
}

fn fk(s: &str, t: &str, a: &str, fs: &str, ft: &str, fa: &str) -> ForeignKey {
    ForeignKey::new(s.into(), t.into(), a.into(), fs.into(), ft.into(), fa.into())
}

#[test]
fn should_create_tables_and_foreign_keys() {
    TableSearch::new(vec![info("A", "B"), info("C", "D")], vec![fk("A", "B", "e", "C", "D", "f")]);
}

#[test]
fn should_find_no_path() {
    let ts = TableSearch::new(
        vec![info("A", "B"), info("C", "D"), info("AA", "BB")],
        vec![fk("A", "B", "e", "C", "D", "f")],
    );
    let path = ts.path_to("A.B".to_string(), "AA.BB".to_string()).unwrap();
    let expected_nodes: Vec<String> = vec![];
    let expected_edges: Vec<String> = vec![];
    assert_eq!(path, (expected_nodes, expected_edges));
}

#[test]
fn should_find_path() {
    let ts = TableSearch::new(
        vec![info("A", "B"), info("C", "D"), info("AA", "BB")],
        vec![fk("A", "B", "e", "C", "D", "f")],
    );
    let path = ts.path_to("A.B".to_string(), "C.D".to_string()).unwrap();
    assert_eq!(path, (vec!["A.B".to_string(), "C.D".to_string()], vec!["e:f".to_string()]));
}

#[test]
fn should_find_path_2() {
    let ts = TableSearch::new(
        vec![info("A", "B"), info("C", "D"), info("AA", "BB")],
        vec![fk("A", "B", "e", "C", "D", "f"), fk("C", "D", "g", "AA", "BB", "h")],
    );
    let path = ts.path_to("A.B".to_string(), "AA.BB".to_string()).unwrap();
    assert_eq!(
        path,
        (
            vec!["A.B".to_string(), "C.D".to_string(), "AA.BB".to_string()],
            vec!["e:f".to_string(), "g:h".to_string()]
        )
    );
}

#[test]
fn should_find_path_when_edges_are_inverted() {
    let ts = TableSearch::new(
        vec![info("A", "B"), info("C", "D"), info("AA", "BB")],
        vec![fk("AA", "BB", "g", "C", "D", "h"), fk("A", "B", "e", "C", "D", "f")],
    );
    let path = ts.path_to("A.B".to_string(), "AA.BB".to_string()).unwrap();
    assert_eq!(
        path,
        (
            vec!["A.B".to_string(), "C.D".to_string(), "AA.BB".to_string()],
            vec!["e:f".to_string(), "g:h".to_string()]
        )
    );
}

fn four_tables() -> TableSearch {
    TableSearch::new(
        vec![info("A", "B"), info("C", "D"), info("AA", "BB"), info("CC", "DD")],
        vec![fk("A", "B", "e", "C", "D", "f"), fk("A", "B", "g", "AA", "BB", "h")],
    )
}

#[test]
fn should_find_all_joinable_tables() {
    let (nodes, edges) = four_tables().joinable_tables("A.B".to_string()).unwrap();
    let expected_nodes = vec!["A.B".to_string(), "AA.BB".to_string(), "C.D".to_string()];
    let expected_edges = vec!["e:f".to_string(), "g:h".to_string()];
    assert!(
        nodes.iter().all(|node| expected_nodes.contains(node))
            && edges.iter().all(|edge| expected_edges.contains(edge))
    );
}

#[test]
fn should_find_all_joinable_tables_2() {
    let res = four_tables().joinable_tables("CC.DD".to_string()).unwrap();
    let expected_nodes = vec!["CC.DD".to_string()];
    let expected_edges: Vec<String> = vec![];
    assert_eq!(res, (expected_nodes, expected_edges));
}

#[test]
fn joinable_tables_cover_every_reachable_table() {
    let ts = four_tables();
    let (nodes, edges) = ts.joinable_tables("A.B".to_string()).unwrap();
    for t in ["A.B", "C.D", "AA.BB", "CC.DD"] {
        let (path, _) = ts.path_to("A.B".to_string(), t.to_string()).unwrap();
        if !path.is_empty() {
            assert!(nodes.contains(&t.to_string()));
        }
    }
    assert!(nodes.contains(&"A.B".to_string()));
    assert_eq!(nodes.len(), 3);
    assert_eq!(edges.len(), 2);
}

#[test]
fn path_to_self_is_the_table_alone() {
    let ts = four_tables();
    let path = ts.path_to("C.D".to_string(), "C.D".to_string()).unwrap();
    assert_eq!(path, (vec!["C.D".to_string()], vec![]));
}

#[test]
fn unknown_tables_are_reported() {
    let ts = four_tables();
    assert_eq!(
        ts.path_to("X.Y".to_string(), "A.B".to_string()),
        Err(TableSearchError::TableNotFoundInGraph("X.Y".to_string()))
    );
    assert_eq!(
        ts.path_to("A.B".to_string(), "X.Y".to_string()),
        Err(TableSearchError::TableNotFoundInGraph("X.Y".to_string()))
    );
    assert_eq!(
        ts.joinable_tables("X.Y".to_string()),
        Err(TableSearchError::TableNotFoundInGraph("X.Y".to_string()))
    );
}

#[test]
fn self_loops_and_parallel_edges_are_allowed() {
    let ts = TableSearch::new(
        vec![info("s", "a"), info("s", "b")],
        vec![fk("s", "a", "p", "s", "a", "q"), fk("s", "a", "x", "s", "b", "y"), fk("s", "a", "u", "s", "b", "v")],
    );
    let (tables, labels) = ts.path_to("s.a".to_string(), "s.b".to_string()).unwrap();
    assert_eq!(tables, vec!["s.a".to_string(), "s.b".to_string()]);
    assert_eq!(labels.len(), 1);
    assert!(labels[0] == "x:y" || labels[0] == "u:v");
}

#[test]
fn resolution_is_sorted_and_canonical() {
    let ts = TableSearch::new(
        vec![info("m", "z"), info("m", "a"), info("m", "k")],
        vec![fk("m", "z", "id", "m", "a", "z_id"), fk("m", "a", "id", "m", "k", "a_id")],
    );
    let attrs = vec!["m.z.name".to_string(), "m.k.title".to_string()];
    let (tables, preds) = ts.get_join_requirements(&attrs).unwrap();
    assert_eq!(tables, vec!["m.a".to_string(), "m.k".to_string(), "m.z".to_string()]);
    assert_eq!(preds, vec!["m.a.id:m.k.a_id".to_string(), "m.a.z_id:m.z.id".to_string()]);
}

#[test]
fn resolution_of_one_or_no_attribute() {
    let ts = four_tables();
    let one = vec!["A.B.c".to_string()];
    assert_eq!(ts.get_join_requirements(&one), Ok((vec!["A.B".to_string()], vec![])));
    let none: Vec<String> = vec![];
    assert_eq!(ts.get_join_requirements(&none), Ok((vec![], vec![])));
}

#[test]
fn resolution_of_disconnected_attributes_fails() {
    let ts = four_tables();
    let attrs = vec!["A.B.c".to_string(), "CC.DD.e".to_string()];
    assert_eq!(ts.get_join_requirements(&attrs), Err(TableSearchError::AtributesCantBeJoined));
}

#[test]
fn table_part_of_attribute() {
    assert_eq!(table_part(&"movies.movie.title".to_string()), "movies.movie");
    assert_eq!(table_part(&"movies".to_string()), "movies");
}
