use search_service::command::{
    get_command_attributes, Command, CompositeCommand, DataType, LogicalOperator, Operator,
    SingleCommand, Value,
};

fn create_simple_command() -> SingleCommand {
    SingleCommand::new(
        "movies.movie.runtime".to_string(),
        Operator::GreaterThan,
        Value::new(200.to_string(), DataType::Integer),
    )
}

fn create_composite_command() -> CompositeCommand {
    let commands = vec![
        Command::SingleCommand(SingleCommand::new(
            "movies.movie.runtime".to_string(),
            Operator::GreaterThan,
            Value::new(200.to_string(), DataType::Integer),
        )),
        Command::SingleCommand(SingleCommand::new(
            "movies.movie.revenue".to_string(),
            Operator::GreaterThan,
            Value::new(1000000.to_string(), DataType::Integer),
        )),
    ];
    CompositeCommand::new(LogicalOperator::And, commands)
}

fn create_nested_composite_command() -> CompositeCommand {
    let nested = CompositeCommand::new(
        LogicalOperator::Or,
        vec![
            Command::SingleCommand(SingleCommand::new(
                "movies.movie.runtime".to_string(),
                Operator::GreaterThan,
                Value::new(200.to_string(), DataType::Integer),
            )),
            Command::SingleCommand(SingleCommand::new(
                "movies.movie.revenue".to_string(),
                Operator::GreaterThan,
                Value::new(1000000.to_string(), DataType::Integer),
            )),
        ],
    );
    let simple = SingleCommand::new(
        "movies.movie.runtime".to_string(),
        Operator::EqualTo,
        Value::new(50.to_string(), DataType::Integer),
    );
    CompositeCommand::new(
        LogicalOperator::And,
        vec![Command::CompositeCommand(nested), Command::SingleCommand(simple)],
    )
}

#[test]
fn tests_test_simple_command_creation() {
    let simple_command = create_simple_command();
    assert_eq!(simple_command.attribute, "movies.movie.runtime".to_string());
    assert_eq!(simple_command.operator, Operator::GreaterThan);
    assert_eq!(simple_command.value.value, 200.to_string());
    assert_eq!(simple_command.value.data_type, DataType::Integer);
}

#[test]
fn tests_test_composite_command_creation() {
    let composite_command = create_composite_command();
    assert_eq!(composite_command.logical_operator, LogicalOperator::And);
    let Command::SingleCommand(ref first_command) = composite_command.commands[0] else {
        panic!("Wrong Command type in index 0");
    };
    assert_eq!(first_command.attribute, "movies.movie.runtime".to_string());
    assert_eq!(first_command.value.data_type, DataType::Integer);
    let Command::SingleCommand(ref second_command) = composite_command.commands[1] else {
        panic!("Wrong Command type in index 1");
    };
    assert_eq!(second_command.attribute, "movies.movie.revenue".to_string());
    assert_eq!(second_command.value.value, 1000000.to_string());
    assert!(composite_command.commands.len() == 2);
}

#[test]
fn test_composite_command_recursive() {
    let final_composite_command = create_nested_composite_command();
    assert_eq!(final_composite_command.logical_operator, LogicalOperator::And);
    let Command::SingleCommand(ref checking_simple_command) = final_composite_command.commands[1] else {
        panic!("Wrong Command type in index 1");
    };
    assert_eq!(checking_simple_command.attribute, "movies.movie.runtime".to_string());
    assert_eq!(checking_simple_command.value.value, 50.to_string());
    let Command::CompositeCommand(ref checking_composite_command) = final_composite_command.commands[0] else {
        panic!("Wrong Command type in index 0");
    };
    assert_eq!(checking_composite_command.logical_operator, LogicalOperator::Or);
    let Command::SingleCommand(ref first) = checking_composite_command.commands[0] else {
        panic!("Wrong Command type in nested index 0");
    };
    assert_eq!(first.attribute, "movies.movie.runtime".to_string());
    assert_eq!(first.value.value, 200.to_string());
    let Command::SingleCommand(ref second) = checking_composite_command.commands[1] else {
        panic!("Wrong Command type in nested index 1");
    };
    assert_eq!(second.attribute, "movies.movie.revenue".to_string());
    assert_eq!(second.value.value, 1000000.to_string());
}

#[test]
fn test_get_command_attributes() {
    let simple_command = Command::SingleCommand(create_simple_command());
    let composite_command = Command::CompositeCommand(create_composite_command());
    let nested_composite_command = Command::CompositeCommand(create_nested_composite_command());

    assert_eq!(get_command_attributes(&simple_command), vec!["movies.movie.runtime".to_string()]);
    assert_eq!(
        get_command_attributes(&composite_command),
        vec!["movies.movie.revenue".to_string(), "movies.movie.runtime".to_string()]
    );
    assert_eq!(
        get_command_attributes(&nested_composite_command),
        vec!["movies.movie.revenue".to_string(), "movies.movie.runtime".to_string()]
    );
    let with_attribute = Command::SingleCommand(SingleCommand::new(
        "movies.movie.revenue".to_string(),
        Operator::GreaterThan,
        Value::new("movies.movie.budget".to_string(), DataType::Attribute),
    ));
    assert_eq!(
        get_command_attributes(&with_attribute),
        vec!["movies.movie.budget".to_string(), "movies.movie.revenue".to_string()]
    );
}

#[test]
fn attributes_are_sorted_and_unique() {
    let c = Command::CompositeCommand(CompositeCommand::new(
        LogicalOperator::Or,
        vec![
            Command::SingleCommand(SingleCommand::new(
                "z.z.z".to_string(),
                Operator::EqualTo,
                Value::new("a.a.a".to_string(), DataType::Attribute),
            )),
            Command::SingleCommand(SingleCommand::new(
                "a.a.a".to_string(),
                Operator::NotEqualTo,
                Value::new("m.m.m".to_string(), DataType::String),
            )),
            Command::SingleCommand(SingleCommand::new(
                "z.z.z".to_string(),
                Operator::LessThan,
                Value::new("3".to_string(), DataType::Integer),
            )),
        ],
    ));
    assert_eq!(get_command_attributes(&c), vec!["a.a.a".to_string(), "z.z.z".to_string()]);
}

#[test]
fn vocabulary_names_in_published_order() {
    let names: Vec<String> = Operator::all().iter().map(|o| o.name()).collect();
    assert_eq!(
        names,
        vec![
            "EqualTo".to_string(),
            "GreaterThan".to_string(),
            "LessThan".to_string(),
            "GreaterThanOrEqualTo".to_string(),
            "LessThanOrEqualTo".to_string(),
            "NotEqualTo".to_string()
        ]
    );
    let logical: Vec<String> = LogicalOperator::all().iter().map(|o| o.name()).collect();
    assert_eq!(logical, vec!["AND".to_string(), "OR".to_string()]);
    assert_eq!(DataType::Date.name(), "Date".to_string());
}
