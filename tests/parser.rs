use search_service::command::{
    Command, CompositeCommand, DataType, LogicalOperator, Operator, SingleCommand, Value,
};
use search_service::literal::string_is_attribute;
use search_service::sql::create_where_query;
use search_service::parser::{
    compound_expression_to_composite_command, parse, terminal_expression_to_simple_command,
    ParseError,
};

fn single(attribute: &str, operator: Operator, value: &str, data_type: DataType) -> Command {
    Command::SingleCommand(SingleCommand::new(
        attribute.to_string(),
        operator,
        Value::new(value.to_string(), data_type),
    ))
}

fn composite(op: LogicalOperator, left: Command, right: Command) -> Command {
    Command::CompositeCommand(CompositeCommand::new(op, vec![left, right]))
}

#[test]
fn test_parse_with_terminal_expression_only() {
    let expression = "movies.movie.revenue gt 100000".to_string();
    let command = single("movies.movie.revenue", Operator::GreaterThan, "100000", DataType::Integer);
    assert_eq!(parse(expression).unwrap(), command);
}

#[test]
fn test_parse_with_composite_expression_no_parenthesis() {
    let expression = "movies.movie.revenue gt 100000 AND movies.movie.genre eq Comedy".to_string();
    let command = composite(
        LogicalOperator::And,
        single("movies.movie.revenue", Operator::GreaterThan, "100000", DataType::Integer),
        single("movies.movie.genre", Operator::EqualTo, "Comedy", DataType::String),
    );
    assert_eq!(parse(expression).unwrap(), command);
}

#[test]
fn test_parse_with_composite_expression_with_parenthesis() {
    let expression =
        "(movies.movie.revenue gt 100000) AND (movies.movie.genre eq Comedy)".to_string();
    let command = composite(
        LogicalOperator::And,
        single("movies.movie.revenue", Operator::GreaterThan, "100000", DataType::Integer),
        single("movies.movie.genre", Operator::EqualTo, "Comedy", DataType::String),
    );
    assert_eq!(parse(expression).unwrap(), command);
}

#[test]
fn test_compound_expression_to_composite_command() {
    let left_expression = "movies.movie.release_date lt 01-01-2000".to_string();
    let right_expression = "movies.movie.genre eq Comedy".to_string();
    let command = composite(
        LogicalOperator::Or,
        single("movies.movie.release_date", Operator::LessThan, "01-01-2000", DataType::String),
        single("movies.movie.genre", Operator::EqualTo, "Comedy", DataType::String),
    );
    assert_eq!(
        compound_expression_to_composite_command(
            LogicalOperator::Or,
            left_expression,
            right_expression
        )
        .unwrap(),
        command
    );
}

#[test]
fn test_terminal_expression_to_simple_command() {
    let expression = "movies.movie.revenue gt 100000".to_string();
    let command = single("movies.movie.revenue", Operator::GreaterThan, "100000", DataType::Integer);
    assert_eq!(terminal_expression_to_simple_command(expression).unwrap(), command);
}

#[test]
fn test_terminal_expression_to_simple_with_attr_as_value() {
    let expression = "movies.movie.revenue lt movies.movie.budget".to_string();
    let command = single(
        "movies.movie.revenue",
        Operator::LessThan,
        "movies.movie.budget",
        DataType::Attribute,
    );
    assert_eq!(terminal_expression_to_simple_command(expression).unwrap(), command);
}

#[test]
fn test_string_is_attribute() {
    assert_eq!(string_is_attribute("Disney".into()), false);
    assert_eq!(string_is_attribute("movies.movie.title".into()), true);
    assert_eq!(string_is_attribute("www.google.com.br".into()), false);
}

#[test]
fn test_initial_to_single_command() {
    let filters = "movies.movie.runtime gt 200".to_string();
    let command = single("movies.movie.runtime", Operator::GreaterThan, "200", DataType::Integer);
    assert_eq!(parse(filters).unwrap(), command);
}

#[test]
fn test_initial_to_single_command_with_string() {
    let filters = "movies.movie.release_date lt 01-01-2000".to_string();
    let command =
        single("movies.movie.release_date", Operator::LessThan, "01-01-2000", DataType::String);
    assert_eq!(parse(filters).unwrap(), command);
}

#[test]
fn test_initial_to_composite_command() {
    let filters = "movies.movie.runtime gt 200 AND movies.movie.revenue gt 1000000".to_string();
    let command = composite(
        LogicalOperator::And,
        single("movies.movie.runtime", Operator::GreaterThan, "200", DataType::Integer),
        single("movies.movie.revenue", Operator::GreaterThan, "1000000", DataType::Integer),
    );
    assert_eq!(parse(filters).unwrap(), command);
}

#[test]
fn test_initial_to_nested_composite_command() {
    let filters = "(movies.movie.revenue gt 1000000 OR movies.movie.runtime gt 200) AND (movies.movie.runtime eq 50)".to_string();
    let command = composite(
        LogicalOperator::And,
        composite(
            LogicalOperator::Or,
            single("movies.movie.revenue", Operator::GreaterThan, "1000000", DataType::Integer),
            single("movies.movie.runtime", Operator::GreaterThan, "200", DataType::Integer),
        ),
        single("movies.movie.runtime", Operator::EqualTo, "50", DataType::Integer),
    );
    assert_eq!(parse(filters).unwrap(), command);
}

#[test]
fn test_initial_to_nested_composite_command_inverted() {
    let filters = "(movies.movie.runtime eq 50) AND (movies.movie.revenue gt 1000000 OR movies.movie.runtime gt 200)".to_string();
    let command = composite(
        LogicalOperator::And,
        single("movies.movie.runtime", Operator::EqualTo, "50", DataType::Integer),
        composite(
            LogicalOperator::Or,
            single("movies.movie.revenue", Operator::GreaterThan, "1000000", DataType::Integer),
            single("movies.movie.runtime", Operator::GreaterThan, "200", DataType::Integer),
        ),
    );
    assert_eq!(parse(filters).unwrap(), command);
}

#[test]
fn test_initial_to_super_nested_composite_command() {
    let filters = "(movies.movie.runtime eq 50 AND movies.movie.release_date lt 01-01-2000) AND ((movies.movie.revenue gt 1000000 OR movies.movie.runtime gt 200) OR (movies.movie.revenue eq 2000000))".to_string();
    let command = composite(
        LogicalOperator::And,
        composite(
            LogicalOperator::And,
            single("movies.movie.runtime", Operator::EqualTo, "50", DataType::Integer),
            single("movies.movie.release_date", Operator::LessThan, "01-01-2000", DataType::String),
        ),
        composite(
            LogicalOperator::Or,
            composite(
                LogicalOperator::Or,
                single("movies.movie.revenue", Operator::GreaterThan, "1000000", DataType::Integer),
                single("movies.movie.runtime", Operator::GreaterThan, "200", DataType::Integer),
            ),
            single("movies.movie.revenue", Operator::EqualTo, "2000000", DataType::Integer),
        ),
    );
    assert_eq!(parse(filters).unwrap(), command);
}

#[test]
fn test_initial_to_super_with_attribute_as_value() {
    let filters = "movies.person.person_name eq movies.movie_cast.character_name".to_string();
    let command = single(
        "movies.person.person_name",
        Operator::EqualTo,
        "movies.movie_cast.character_name",
        DataType::Attribute,
    );
    assert_eq!(parse(filters).unwrap(), command);
}

#[test]
fn terminal_with_wrong_arity_is_rejected() {
    let r = parse("movies.movie_cast.character_name eq Harry Potter".to_string());
    assert_eq!(
        r,
        Err(ParseError::MalformedTerminal(
            "movies.movie_cast.character_name eq Harry Potter".to_string()
        ))
    );
    assert!(matches!(parse("movies.movie.title".to_string()), Err(ParseError::MalformedTerminal(_))));
}

#[test]
fn unknown_operator_is_rejected() {
    let r = parse("movies.movie.runtime like 200".to_string());
    assert_eq!(r, Err(ParseError::UnknownOperator("like".to_string())));
}

#[test]
fn left_fault_is_reported_before_right_fault() {
    let r = parse("a.b.c xx 1 AND a.b.c yy 2".to_string());
    assert_eq!(r, Err(ParseError::UnknownOperator("xx".to_string())));
}

#[test]
fn literal_kinds() {
    let kind = |t: &str| match parse(format!("a.b.c eq {}", t)).unwrap() {
        Command::SingleCommand(sc) => sc.value.data_type,
        _ => panic!("not a single command"),
    };
    assert_eq!(kind("42"), DataType::Integer);
    assert_eq!(kind("-7"), DataType::Integer);
    assert_eq!(kind("1e5"), DataType::Integer);
    assert_eq!(kind("+2E-3"), DataType::Integer);
    assert_eq!(kind("inf"), DataType::Integer);
    assert_eq!(kind("NaN"), DataType::Integer);
    assert_eq!(kind("3.14"), DataType::String);
    assert_eq!(kind("1e"), DataType::String);
    assert_eq!(kind("x.y.z"), DataType::Attribute);
    assert_eq!(kind("Brazil"), DataType::String);
}

#[test]
fn grouped_or_is_split_before_plain_and() {
    let r = parse("(a.b.c eq 1 AND a.b.d eq 2) OR (a.b.e eq 3)".to_string()).unwrap();
    let expected = composite(
        LogicalOperator::Or,
        composite(
            LogicalOperator::And,
            single("a.b.c", Operator::EqualTo, "1", DataType::Integer),
            single("a.b.d", Operator::EqualTo, "2", DataType::Integer),
        ),
        single("a.b.e", Operator::EqualTo, "3", DataType::Integer),
    );
    assert_eq!(r, expected);
}

#[test]
fn parse_then_render_round_trips() {
    let text = "(movies.movie.runtime gt 200) OR (movies.movie.title eq Up)";
    let c = parse(text.to_string()).unwrap();
    let rendered = create_where_query(&c, &vec![]);
    assert_eq!(rendered, "WHERE ((movies.movie.runtime > 200) OR (movies.movie.title = 'Up'))");
    let again = parse("(movies.movie.runtime gt 200) OR (movies.movie.title eq Up)".to_string()).unwrap();
    assert_eq!(again, c);
}
