use search_service::catalog::{
    translate_native_type, Attribute, DbSchema, ForeignKey, Table, TableSearchInfo, TypeError,
};
use search_service::command::DataType;
use search_service::manager::{build_search_query, text_projection, ManagerError};
use search_service::properties::{get_filter_properties, PropertiesError};
use search_service::table_search::{TableSearch, TableSearchError};

fn table(s: &str, n: &str, attrs: &[(&str, &str)]) -> Table {
    Table::new(
        s.to_string(),
        n.to_string(),
        attrs.iter().map(|(a, t)| Attribute::new(a.to_string(), t.to_string())).collect(),
        vec![],
    )
}

fn graph_of(schema: &DbSchema) -> TableSearch {
    TableSearch::new(
        schema.tables.iter().map(TableSearchInfo::from_table).collect(),
        schema.foreign_keys.clone(),
    )
}

fn two_components() -> DbSchema {
    DbSchema::new(
        vec![
            table("movies", "movie", &[("movie_id", "integer"), ("title", "text")]),
            table("other", "t", &[("c", "date")]),
            table("movies", "cast", &[("movie_id", "bigint"), ("name", "varchar")]),
        ],
        vec![ForeignKey::new(
            "movies".into(),
            "cast".into(),
            "movie_id".into(),
            "movies".into(),
            "movie".into(),
            "movie_id".into(),
        )],
    )
}

#[test]
fn properties_of_disconnected_catalog() {
    let schema = two_components();
    let p = get_filter_properties(&schema, &graph_of(&schema)).unwrap();
    assert_eq!(p.subsets.len(), 2);
    assert_eq!(p.subsets, vec![vec![0, 1, 3, 4], vec![2]]);
    let names: Vec<String> = p.attributes.iter().map(|a| a.name.clone()).collect();
    assert_eq!(
        names,
        vec![
            "movies.movie.movie_id".to_string(),
            "movies.movie.title".to_string(),
            "other.t.c".to_string(),
            "movies.cast.movie_id".to_string(),
            "movies.cast.name".to_string()
        ]
    );
    let ids: Vec<usize> = p.attributes.iter().map(|a| a.subset_id).collect();
    assert_eq!(ids, vec![0, 0, 1, 0, 0]);
    assert_eq!(p.attributes[2].data_type, DataType::Date);
    assert_eq!(
        p.operators,
        vec![
            "EqualTo".to_string(),
            "GreaterThan".to_string(),
            "LessThan".to_string(),
            "GreaterThanOrEqualTo".to_string(),
            "LessThanOrEqualTo".to_string(),
            "NotEqualTo".to_string()
        ]
    );
    assert_eq!(p.logical_operators, vec!["AND".to_string(), "OR".to_string()]);
}

#[test]
fn every_attribute_in_exactly_one_subset() {
    let schema = two_components();
    let p = get_filter_properties(&schema, &graph_of(&schema)).unwrap();
    for (i, a) in p.attributes.iter().enumerate() {
        assert!(a.subset_id < p.subsets.len());
        let count = p.subsets.iter().filter(|s| s.contains(&i)).count();
        assert_eq!(count, 1);
        assert!(p.subsets[a.subset_id].contains(&i));
    }
}

#[test]
fn unknown_native_type_fails_properties() {
    let schema = DbSchema::new(vec![table("s", "t", &[("c", "geometry")])], vec![]);
    assert_eq!(
        get_filter_properties(&schema, &graph_of(&schema)).err(),
        Some(PropertiesError::Type(TypeError::UnknownType("geometry".to_string())))
    );
}

#[test]
fn test_translate_native_type() {
    assert_eq!(translate_native_type("integer".into()), Ok(DataType::Integer));
    assert_eq!(translate_native_type("character varying".into()), Ok(DataType::String));
    assert_eq!(translate_native_type("numeric".into()), Ok(DataType::Float));
    assert_eq!(translate_native_type("bigint".into()), Ok(DataType::Integer));
    assert_eq!(translate_native_type("date".into()), Ok(DataType::Date));
    assert_eq!(translate_native_type("int".into()), Ok(DataType::Integer));
    assert_eq!(translate_native_type("varchar".into()), Ok(DataType::String));
    assert_eq!(translate_native_type("decimal".into()), Ok(DataType::Float));
    assert_eq!(
        translate_native_type("timestamp without time zone".into()),
        Ok(DataType::Date)
    );
    assert_eq!(
        translate_native_type("blob".into()),
        Err(TypeError::UnknownType("blob".to_string()))
    );
}

#[test]
fn postgres_projection_is_cast_to_text() {
    assert_eq!(
        text_projection(&vec!["a.b.c".to_string()]),
        vec!["a.b.c::TEXT".to_string()]
    );
    let schema = DbSchema::new(vec![table("movies", "movie", &[("runtime", "integer")])], vec![]);
    let ts = graph_of(&schema);
    let q = build_search_query(
        vec!["movies.movie.runtime".to_string()],
        "movies.movie.runtime gt 200".to_string(),
        "postgres",
        &ts,
    );
    assert_eq!(
        q,
        Ok("SELECT movies.movie.runtime::TEXT\nFROM movies.movie\nWHERE (movies.movie.runtime > 200);".to_string())
    );
    let q = build_search_query(
        vec!["movies.movie.runtime".to_string()],
        "movies.movie.runtime gt 200".to_string(),
        "mysql",
        &ts,
    );
    assert_eq!(
        q,
        Ok("SELECT movies.movie.runtime\nFROM movies.movie\nWHERE (movies.movie.runtime > 200);".to_string())
    );
}

#[test]
fn pipeline_errors_by_stage() {
    let schema = DbSchema::new(vec![table("movies", "movie", &[("runtime", "integer")])], vec![]);
    let ts = graph_of(&schema);
    let q = build_search_query(vec![], "movies.movie.runtime like 200".to_string(), "mysql", &ts);
    assert!(matches!(q, Err(ManagerError::ParseError(_))));
    let q = build_search_query(vec![], "movies.other.x eq 1 AND movies.movie.runtime eq 2".to_string(), "mysql", &ts);
    assert!(matches!(q, Err(ManagerError::QueryBuildError(_))));
}

#[test]
fn first_catalog_fault_is_reported() {
    let schema = DbSchema::new(
        vec![
            table("s", "a", &[("x", "integer"), ("y", "blob"), ("z", "geometry")]),
            table("s", "b", &[("w", "point")]),
        ],
        vec![],
    );
    assert_eq!(
        get_filter_properties(&schema, &graph_of(&schema)).err(),
        Some(PropertiesError::Type(TypeError::UnknownType("blob".to_string())))
    );
    let only_a = DbSchema::new(vec![table("s", "a", &[("x", "integer")])], vec![]);
    let schema = DbSchema::new(
        vec![table("s", "a", &[("x", "integer")]), table("s", "b", &[("w", "point")])],
        vec![],
    );
    assert_eq!(
        get_filter_properties(&schema, &graph_of(&only_a)).err(),
        Some(PropertiesError::Graph(TableSearchError::TableNotFoundInGraph("s.b".to_string())))
    );
}

#[test]
fn table_without_attributes_still_heads_a_subset() {
    let schema = DbSchema::new(
        vec![table("s", "empty", &[]), table("s", "t", &[("c", "text")])],
        vec![],
    );
    let p = get_filter_properties(&schema, &graph_of(&schema)).unwrap();
    assert_eq!(p.subsets, vec![vec![], vec![0]]);
    assert_eq!(p.attributes[0].subset_id, 1);
}
