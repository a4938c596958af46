use search_service::catalog::{ForeignKey, TableSearchInfo};
use search_service::command::{
    Command, CompositeCommand, DataType, LogicalOperator, Operator, SingleCommand, Value,
};
use search_service::sql::{
    command_to_query, create_from_query, create_select_query, create_where_query,
    translate_operator,
};
use search_service::table_search::{TableSearch, TableSearchError};

fn single(attribute: &str, operator: Operator, value: &str, data_type: DataType) -> Command {
    Command::SingleCommand(SingleCommand::new(
        attribute.to_string(),
        operator,
        Value::new(value.to_string(), data_type),
    ))
}

fn composite(op: LogicalOperator, left: Command, right: Command) -> Command {
    Command::CompositeCommand(CompositeCommand::new(op, vec![left, right]))
}

fn fk(s: &str, t: &str, a: &str, fs: &str, ft: &str, fa: &str) -> ForeignKey {
    ForeignKey::new(s.into(), t.into(), a.into(), fs.into(), ft.into(), fa.into())
}

fn movie_graph() -> TableSearch {
    TableSearch::new(vec![TableSearchInfo::new("movies".into(), "movie".into())], vec![])
}

#[test]
fn test_create_select_query() {
    let projection = vec!["column1".into(), "column2".into(), "column3".into()];
    assert_eq!(create_select_query(projection), "SELECT column1, column2, column3");
}

#[test]
fn test_create_from_query() {
    let tables = vec!["table1".into(), "table2".into(), "table3".into()];
    assert_eq!(create_from_query(tables), "FROM table1, table2, table3");
}

#[test]
fn test_create_where_query_1() {
    let pairs: Vec<String> = vec![];
    let command = composite(
        LogicalOperator::Or,
        single("movies.movie.title", Operator::EqualTo, "Interstellar", DataType::String),
        single("movies.movie.runtime", Operator::GreaterThan, "300", DataType::Integer),
    );
    assert_eq!(
        create_where_query(&command, &pairs),
        "WHERE ((movies.movie.title = 'Interstellar') OR (movies.movie.runtime > 300))"
    );
}

#[test]
fn test_create_where_query_2() {
    let pairs: Vec<String> = vec![
        "movies.movie.movie_id:movies.production_country.movie_id".into(),
        "movies.production_country.country_id:movies.country.country_id".into(),
    ];
    let command = composite(
        LogicalOperator::And,
        composite(
            LogicalOperator::Or,
            single("movies.country.country_name", Operator::EqualTo, "Brazil", DataType::String),
            single("movies.country.country_name", Operator::EqualTo, "United States", DataType::String),
        ),
        single("movies.movie.budget", Operator::GreaterThan, "1000000", DataType::Integer),
    );
    assert_eq!(
        create_where_query(&command, &pairs),
        "WHERE (movies.movie.movie_id = movies.production_country.movie_id AND \
        movies.production_country.country_id = movies.country.country_id) AND \
        (((movies.country.country_name = 'Brazil') OR \
        (movies.country.country_name = 'United States')) AND \
        (movies.movie.budget > 1000000))"
    );
}

#[test]
fn mod_test_command_to_query_simple_command() {
    let projection = vec!["movies.movie.title".to_string(), "movies.movie.runtime".to_string()];
    let command = single("movies.movie.runtime", Operator::GreaterThan, "200", DataType::Integer);
    let query = command_to_query(projection, &command, &movie_graph()).unwrap();
    assert_eq!(
        query,
        format!(
            "{}\n{}\n{}",
            "SELECT movies.movie.title, movies.movie.runtime",
            "FROM movies.movie",
            "WHERE (movies.movie.runtime > 200);"
        )
    );
}

#[test]
fn tests_test_command_to_query_simple_command() {
    let projection = vec!["movies.movie.title".to_string(), "movies.movie.runtime".to_string()];
    let command = single("movies.movie.runtime", Operator::GreaterThan, "200", DataType::Integer);
    let query = command_to_query(projection, &command, &movie_graph());
    assert!(query.is_ok());
}

fn nested_budget_command() -> Command {
    composite(
        LogicalOperator::And,
        composite(
            LogicalOperator::Or,
            single("movies.movie.runtime", Operator::GreaterThan, "200", DataType::Integer),
            single("movies.movie.revenue", Operator::GreaterThan, "1000000", DataType::Integer),
        ),
        single("movies.movie.budget", Operator::GreaterThan, "1000000", DataType::Integer),
    )
}

#[test]
fn mod_test_intermediary_to_final_composite_command() {
    let projection = vec![
        "movies.movie.title".to_string(),
        "movies.movie.revenue".to_string(),
        "movies.movie.runtime".to_string(),
        "movies.movie.budget".to_string(),
    ];
    let query = command_to_query(projection, &nested_budget_command(), &movie_graph()).unwrap();
    assert_eq!(
        query,
        format!(
            "{}\n{}\n{}",
            "SELECT movies.movie.title, movies.movie.revenue, movies.movie.runtime, movies.movie.budget",
            "FROM movies.movie",
            "WHERE (((movies.movie.runtime > 200) OR (movies.movie.revenue > 1000000)) AND (movies.movie.budget > 1000000));"
        )
    );
}

#[test]
fn tests_test_intermediary_to_final_composite_command() {
    let projection = vec![
        "movies.movie.title".to_string(),
        "movies.movie.revenue".to_string(),
        "movies.movie.runtime".to_string(),
        "movies.movie.budget".to_string(),
    ];
    let query = command_to_query(projection, &nested_budget_command(), &movie_graph());
    assert!(query.is_ok());
}

fn country_graph() -> TableSearch {
    TableSearch::new(
        vec![
            TableSearchInfo::new("movies".into(), "movie".into()),
            TableSearchInfo::new("movies".into(), "production_country".into()),
            TableSearchInfo::new("movies".into(), "country".into()),
        ],
        vec![
            fk("movies", "movie", "movie_id", "movies", "production_country", "movie_id"),
            fk("movies", "production_country", "country_id", "movies", "country", "country_id"),
        ],
    )
}

#[test]
fn test_intermediary_to_final_composite_command_2() {
    let projection = vec!["movies.movie.movie_id".to_string(), "movies.movie.title".to_string()];
    let command = single("movies.country.country_name", Operator::EqualTo, "Brazil", DataType::String);
    let query = command_to_query(projection, &command, &country_graph()).unwrap();
    assert_eq!(
        query,
        format!(
            "{}\n{}\n{}",
            "SELECT movies.movie.movie_id, movies.movie.title",
            "FROM movies.country, movies.movie, movies.production_country",
            "WHERE (\
            movies.country.country_id = movies.production_country.country_id AND \
            movies.movie.movie_id = movies.production_country.movie_id) AND \
            (movies.country.country_name = 'Brazil');"
        )
    );
}

#[test]
fn test_intermediary_to_final_composite_command_3() {
    let projection = vec!["movies.movie.movie_id".to_string(), "movies.movie.title".to_string()];
    let command = composite(
        LogicalOperator::Or,
        composite(
            LogicalOperator::And,
            single("movies.production_company.company_name", Operator::EqualTo, "Disney", DataType::String),
            single("movies.country.country_name", Operator::EqualTo, "United States", DataType::String),
        ),
        single("movies.movie.budget", Operator::LessThanOrEqualTo, "1000", DataType::Integer),
    );
    let ts = TableSearch::new(
        vec![
            TableSearchInfo::new("movies".into(), "movie".into()),
            TableSearchInfo::new("movies".into(), "movie_company".into()),
            TableSearchInfo::new("movies".into(), "production_company".into()),
            TableSearchInfo::new("movies".into(), "production_country".into()),
            TableSearchInfo::new("movies".into(), "country".into()),
        ],
        vec![
            fk("movies", "movie", "movie_id", "movies", "movie_company", "movie_id"),
            fk("movies", "movie_company", "company_id", "movies", "production_company", "company_id"),
            fk("movies", "movie", "movie_id", "movies", "production_country", "movie_id"),
            fk("movies", "production_country", "country_id", "movies", "country", "country_id"),
        ],
    );
    let query = command_to_query(projection, &command, &ts).unwrap();
    assert_eq!(
        query,
        format!(
            "{}\n{}\n{}",
            "SELECT movies.movie.movie_id, movies.movie.title",
            "FROM movies.country, movies.movie, movies.movie_company, movies.production_company, movies.production_country",
            "WHERE (\
            movies.country.country_id = movies.production_country.country_id AND \
            movies.movie.movie_id = movies.movie_company.movie_id AND \
            movies.movie.movie_id = movies.production_country.movie_id AND \
            movies.movie_company.company_id = movies.production_company.company_id) \
            AND (\
            (\
            (movies.production_company.company_name = 'Disney') \
            AND \
            (movies.country.country_name = 'United States')\
            ) \
            OR (movies.movie.budget <= 1000));"
        )
    );
}

#[test]
fn attribute_valued_terminal_is_not_quoted() {
    let ts = TableSearch::new(
        vec![
            TableSearchInfo::new("movies".into(), "person".into()),
            TableSearchInfo::new("movies".into(), "movie_cast".into()),
        ],
        vec![fk("movies", "movie_cast", "person_id", "movies", "person", "person_id")],
    );
    let command = single(
        "movies.person.person_name",
        Operator::EqualTo,
        "movies.movie_cast.character_name",
        DataType::Attribute,
    );
    let query = command_to_query(vec![], &command, &ts).unwrap();
    assert_eq!(
        query,
        "SELECT *\nFROM movies.movie_cast, movies.person\nWHERE (movies.movie_cast.person_id = movies.person.person_id) AND (movies.person.person_name = movies.movie_cast.character_name);"
    );
}

#[test]
fn unjoinable_attributes_are_rejected() {
    let ts = TableSearch::new(
        vec![
            TableSearchInfo::new("movies".into(), "movie".into()),
            TableSearchInfo::new("unrelated".into(), "t".into()),
        ],
        vec![],
    );
    let projection = vec!["movies.movie.title".to_string(), "unrelated.t.c".to_string()];
    let command = single("movies.movie.runtime", Operator::GreaterThan, "200", DataType::Integer);
    assert_eq!(
        command_to_query(projection, &command, &ts),
        Err(TableSearchError::AtributesCantBeJoined)
    );
}

#[test]
fn unknown_table_is_reported() {
    let projection = vec!["movies.movie.title".to_string(), "other.t.c".to_string()];
    let command = single("movies.movie.runtime", Operator::GreaterThan, "200", DataType::Integer);
    assert_eq!(
        command_to_query(projection, &command, &movie_graph()),
        Err(TableSearchError::TableNotFoundInGraph("other.t".to_string()))
    );
}

#[test]
fn operators_translate_to_sql_symbols() {
    assert_eq!(translate_operator(&Operator::EqualTo), " = ");
    assert_eq!(translate_operator(&Operator::GreaterThan), " > ");
    assert_eq!(translate_operator(&Operator::LessThan), " < ");
    assert_eq!(translate_operator(&Operator::GreaterThanOrEqualTo), " >= ");
    assert_eq!(translate_operator(&Operator::LessThanOrEqualTo), " <= ");
    assert_eq!(translate_operator(&Operator::NotEqualTo), " <> ");
}

#[test]
fn synthesis_is_byte_stable() {
    let projection = vec!["movies.movie.movie_id".to_string(), "movies.movie.title".to_string()];
    let command = single("movies.country.country_name", Operator::EqualTo, "Brazil", DataType::String);
    let a = command_to_query(projection.clone(), &command, &country_graph()).unwrap();
    let b = command_to_query(projection, &command, &country_graph()).unwrap();
    assert_eq!(a, b);
}

#[test]
fn empty_projection_selects_everything() {
    assert_eq!(create_select_query(vec![]), "SELECT *");
}
