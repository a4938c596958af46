use search_service::config::{MySQLConfig, PostgresConfig};
use search_service::parser::{AndExpression, Expression, OrExpression, TerminalExpression};
use search_service::command::{composite_command_creation, simple_command_creation, Command, LogicalOperator, Operator};

#[test]
fn allowed_schemas_are_split_at_commas() {
    let c = PostgresConfig::new(
        "public,movies".into(),
        "localhost".into(),
        54329,
        "search-service".into(),
        "search-service".into(),
        "search-service".into(),
    );
    assert_eq!(c.allowed_schemas, vec!["public".to_string(), "movies".to_string()]);
    assert_eq!(c.port, 54329);
    let m = MySQLConfig::new(
        "a,,b".into(),
        "localhost".into(),
        3306,
        "u".into(),
        "p".into(),
        "d".into(),
    );
    assert_eq!(m.allowed_schemas, vec!["a".to_string(), "".to_string(), "b".to_string()]);
    assert_eq!(m.dbname, "d".to_string());
}

#[test]
fn expressions_interpret_like_the_parser() {
    let t = TerminalExpression::new("movies.movie.runtime gt 200".into()).interpret().unwrap();
    assert!(matches!(t, Command::SingleCommand(ref sc) if sc.operator == Operator::GreaterThan));
    let a = AndExpression::new("a.b.c eq 1".into(), "a.b.d eq 2".into()).interpret().unwrap();
    assert!(matches!(a, Command::CompositeCommand(ref cc) if cc.logical_operator == LogicalOperator::And));
    let o = OrExpression::new("a.b.c eq 1".into(), "a.b.d eq 2".into()).interpret().unwrap();
    assert!(matches!(o, Command::CompositeCommand(ref cc) if cc.logical_operator == LogicalOperator::Or));
}

#[test]
fn fixture_commands() {
    let s = simple_command_creation();
    assert_eq!(s.attribute, "movies.movie.runtime");
    assert_eq!(s.value.value, "200");
    let c = composite_command_creation();
    assert_eq!(c.logical_operator, LogicalOperator::And);
    assert_eq!(c.commands.len(), 2);
}
