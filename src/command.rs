//! The intermediate command tree that a filter expression parses into.

use vstd::prelude::*;

use crate::text::{lemma_concat_contains, sort_unique, strictly_sorted, views};

verus! {

/// A comparison between an attribute and a value. The order of the variants
/// is the order in which the vocabulary publishes them.
#[derive(PartialEq, Eq, Structural, Debug, Clone, Copy)]
pub enum Operator {
    EqualTo,
    GreaterThan,
    LessThan,
    GreaterThanOrEqualTo,
    LessThanOrEqualTo,
    NotEqualTo,
}

/// The closed set of value kinds. `Attribute` marks a literal that names
/// another column.
#[derive(PartialEq, Eq, Structural, Debug, Clone, Copy)]
pub enum DataType {
    Integer,
    String,
    Attribute,
    Float,
    Date,
}

/// How the children of a composite command are combined.
#[derive(PartialEq, Eq, Structural, Debug, Clone, Copy)]
pub enum LogicalOperator {
    And,
    Or,
}

/// A literal together with its kind.
#[derive(PartialEq, Debug, Clone)]
pub struct Value {
    pub value: String,
    pub data_type: DataType,
}

/// `attribute operator value`.
#[derive(PartialEq, Debug, Clone)]
pub struct SingleCommand {
    pub attribute: String,
    pub operator: Operator,
    pub value: Value,
}

/// Children combined by one logical operator.
#[derive(PartialEq, Debug)]
pub struct CompositeCommand {
    pub logical_operator: LogicalOperator,
    pub commands: Vec<Command>,
}

/// A node of the command tree.
#[derive(PartialEq, Debug)]
pub enum Command {
    SingleCommand(SingleCommand),
    CompositeCommand(CompositeCommand),
}

impl Value {
    pub fn new(value: String, data_type: DataType) -> (r: Self)
        ensures
            r.value@ == value@,
            r.data_type == data_type,
    {
        Value { value, data_type }
    }
}

impl SingleCommand {
    pub fn new(attribute: String, operator: Operator, value: Value) -> (r: Self)
        ensures
            r.attribute@ == attribute@,
            r.operator == operator,
            r.value == value,
    {
        SingleCommand { attribute, operator, value }
    }
}

impl CompositeCommand {
    pub fn new(logical_operator: LogicalOperator, commands: Vec<Command>) -> (r: Self)
        ensures
            r.logical_operator == logical_operator,
            r.commands@ == commands@,
    {
        CompositeCommand { logical_operator, commands }
    }
}

/// The published name of an operator.
pub open spec fn operator_name(op: Operator) -> Seq<char> {
    match op {
        Operator::EqualTo => "EqualTo"@,
        Operator::GreaterThan => "GreaterThan"@,
        Operator::LessThan => "LessThan"@,
        Operator::GreaterThanOrEqualTo => "GreaterThanOrEqualTo"@,
        Operator::LessThanOrEqualTo => "LessThanOrEqualTo"@,
        Operator::NotEqualTo => "NotEqualTo"@,
    }
}

/// The published name of a logical operator.
pub open spec fn logical_name(op: LogicalOperator) -> Seq<char> {
    match op {
        LogicalOperator::And => "AND"@,
        LogicalOperator::Or => "OR"@,
    }
}

/// The published name of a value kind.
pub open spec fn data_type_name(t: DataType) -> Seq<char> {
    match t {
        DataType::Integer => "Integer"@,
        DataType::String => "String"@,
        DataType::Attribute => "Attribute"@,
        DataType::Float => "Float"@,
        DataType::Date => "Date"@,
    }
}

impl Operator {
    /// The operator's published name.
    pub fn name(&self) -> (r: String)
        ensures
            r@ == operator_name(*self),
    {
        match self {
            Operator::EqualTo => String::from_str("EqualTo"),
            Operator::GreaterThan => String::from_str("GreaterThan"),
            Operator::LessThan => String::from_str("LessThan"),
            Operator::GreaterThanOrEqualTo => String::from_str("GreaterThanOrEqualTo"),
            Operator::LessThanOrEqualTo => String::from_str("LessThanOrEqualTo"),
            Operator::NotEqualTo => String::from_str("NotEqualTo"),
        }
    }

    /// All operators, in published order.
    pub fn all() -> (r: Vec<Operator>)
        ensures
            r@ == seq![
                Operator::EqualTo,
                Operator::GreaterThan,
                Operator::LessThan,
                Operator::GreaterThanOrEqualTo,
                Operator::LessThanOrEqualTo,
                Operator::NotEqualTo,
            ],
    {
        vec![
            Operator::EqualTo,
            Operator::GreaterThan,
            Operator::LessThan,
            Operator::GreaterThanOrEqualTo,
            Operator::LessThanOrEqualTo,
            Operator::NotEqualTo,
        ]
    }
}

impl LogicalOperator {
    /// The logical operator's published name.
    pub fn name(&self) -> (r: String)
        ensures
            r@ == logical_name(*self),
    {
        match self {
            LogicalOperator::And => String::from_str("AND"),
            LogicalOperator::Or => String::from_str("OR"),
        }
    }

    /// All logical operators, in published order.
    pub fn all() -> (r: Vec<LogicalOperator>)
        ensures
            r@ == seq![LogicalOperator::And, LogicalOperator::Or],
    {
        vec![LogicalOperator::And, LogicalOperator::Or]
    }
}

impl DataType {
    /// The kind's published name.
    pub fn name(&self) -> (r: String)
        ensures
            r@ == data_type_name(*self),
    {
        match self {
            DataType::Integer => String::from_str("Integer"),
            DataType::String => String::from_str("String"),
            DataType::Attribute => String::from_str("Attribute"),
            DataType::Float => String::from_str("Float"),
            DataType::Date => String::from_str("Date"),
        }
    }
}

/// Every composite node has at least two children.
pub open spec fn well_formed(c: Command) -> bool
    decreases c,
{
    match c {
        Command::SingleCommand(_) => true,
        Command::CompositeCommand(cc) => cc.commands.len() >= 2 && all_well_formed(cc.commands@),
    }
}

/// Every command of `cs` is well formed.
pub open spec fn all_well_formed(cs: Seq<Command>) -> bool
    decreases cs,
{
    if cs.len() == 0 {
        true
    } else {
        all_well_formed(cs.subrange(0, cs.len() - 1)) && well_formed(cs[cs.len() - 1])
    }
}

/// `x` is the attribute of some single node of `c`, or the literal of a
/// single node whose value kind is `Attribute`.
pub open spec fn mentions(c: Command, x: Seq<char>) -> bool
    decreases c,
{
    match c {
        Command::SingleCommand(sc) => x == sc.attribute@ || (sc.value.data_type
            == DataType::Attribute && x == sc.value.value@),
        Command::CompositeCommand(cc) => any_mentions(cc.commands@, x),
    }
}

/// Some command of `cs` mentions `x`.
pub open spec fn any_mentions(cs: Seq<Command>, x: Seq<char>) -> bool
    decreases cs,
{
    if cs.len() == 0 {
        false
    } else {
        any_mentions(cs.subrange(0, cs.len() - 1), x) || mentions(cs[cs.len() - 1], x)
    }
}

/// `any_mentions` holds exactly when one of the commands mentions `x`.
pub proof fn lemma_any_mentions(cs: Seq<Command>, x: Seq<char>)
    ensures
        any_mentions(cs, x) <==> exists|j: int| 0 <= j < cs.len() && #[trigger] mentions(cs[j], x),
    decreases cs.len(),
{
    if cs.len() > 0 {
        let init = cs.subrange(0, cs.len() - 1);
        lemma_any_mentions(init, x);
        assert(any_mentions(cs, x) == (any_mentions(init, x) || mentions(cs[cs.len() - 1], x)));
        if mentions(cs[cs.len() - 1], x) {
            assert(0 <= cs.len() - 1 < cs.len() && mentions(cs[cs.len() - 1], x));
        }
        if any_mentions(init, x) {
            let j = choose|j: int| 0 <= j < init.len() && #[trigger] mentions(init[j], x);
            assert(cs[j] == init[j]);
        }
        if exists|j: int| 0 <= j < cs.len() && #[trigger] mentions(cs[j], x) {
            let j = choose|j: int| 0 <= j < cs.len() && #[trigger] mentions(cs[j], x);
            if j < cs.len() - 1 {
                assert(init[j] == cs[j]);
            }
        }
    }
}

/// `all_well_formed` holds exactly when each command is well formed.
pub proof fn lemma_all_well_formed(cs: Seq<Command>)
    ensures
        all_well_formed(cs) <==> forall|j: int| 0 <= j < cs.len() ==> #[trigger] well_formed(cs[j]),
    decreases cs.len(),
{
    if cs.len() > 0 {
        let init = cs.subrange(0, cs.len() - 1);
        lemma_all_well_formed(init);
        assert(all_well_formed(cs) == (all_well_formed(init) && well_formed(cs[cs.len() - 1])));
        if all_well_formed(cs) {
            assert forall|j: int| 0 <= j < cs.len() implies #[trigger] well_formed(cs[j]) by {
                if j < cs.len() - 1 {
                    assert(init[j] == cs[j]);
                }
            }
        }
        if forall|j: int| 0 <= j < cs.len() ==> #[trigger] well_formed(cs[j]) {
            assert forall|j: int| 0 <= j < init.len() implies #[trigger] well_formed(init[j]) by {
                assert(init[j] == cs[j]);
            }
        }
    }
}

fn collect_single_attributes(sc: &SingleCommand, out: &mut Vec<String>)
    ensures
        forall|x: Seq<char>|
            views(final(out)@).contains(x) <==> (views(old(out)@).contains(x) || x
                == sc.attribute@ || (sc.value.data_type == DataType::Attribute && x
                == sc.value.value@)),
{
    let ghost before = views(out@);
    out.push(sc.attribute.clone());
    if sc.value.data_type == DataType::Attribute {
        out.push(sc.value.value.clone());
    }
    assert forall|x: Seq<char>|
        views(out@).contains(x) <==> (before.contains(x) || x == sc.attribute@ || (
        sc.value.data_type == DataType::Attribute && x == sc.value.value@)) by {
        if views(out@).contains(x) {
            let q = choose|q: int| 0 <= q < views(out@).len() && views(out@)[q] == x;
            if q < before.len() {
                assert(before[q] == x);
            }
        }
        if before.contains(x) {
            let q = choose|q: int| 0 <= q < before.len() && before[q] == x;
            assert(views(out@)[q] == x);
        }
        if x == sc.attribute@ {
            assert(views(out@)[before.len() as int] == x);
        }
        if sc.value.data_type == DataType::Attribute && x == sc.value.value@ {
            assert(views(out@)[before.len() as int + 1] == x);
        }
    }
}

fn collect_attributes(c: &Command) -> (r: Vec<String>)
    ensures
        forall|x: Seq<char>| views(r@).contains(x) <==> mentions(*c, x),
    decreases c,
{
    let mut out: Vec<String> = Vec::new();
    match c {
        Command::SingleCommand(sc) => {
            collect_single_attributes(sc, &mut out);
        },
        Command::CompositeCommand(cc) => {
            let ghost cs = cc.commands@;
            let mut i: usize = 0;
            while i < cc.commands.len()
                invariant
                    i <= cc.commands.len(),
                    cs == cc.commands@,
                    *c == Command::CompositeCommand(*cc),
                    forall|x: Seq<char>|
                        views(out@).contains(x) <==> any_mentions(cs.subrange(0, i as int), x),
                decreases cc.commands.len() - i,
            {
                proof {
                    vstd::std_specs::vec::axiom_vec_index_decreases(cc.commands, i as int);
                    assert(decreases_to!(*c => (*c)->CompositeCommand_0));
                    assert(decreases_to!(*c => (*c)->CompositeCommand_0.commands));
                    assert(decreases_to!(*c => cc.commands[i as int]));
                }
                let ghost mid = views(out@);
                let part = collect_attributes(&cc.commands[i]);
                let mut k: usize = 0;
                while k < part.len()
                    invariant
                        k <= part.len(),
                        views(out@) == mid + views(part@.subrange(0, k as int)),
                    decreases part.len() - k,
                {
                    let ghost prev = out@;
                    out.push(part[k].clone());
                    assert(views(out@) =~= views(prev).push(part@[k as int]@));
                    assert(views(part@.subrange(0, k + 1)) =~= views(part@.subrange(0, k as int)).push(part@[k as int]@));
                    k = k + 1;
                }
                assert(part@.subrange(0, part.len() as int) =~= part@);
                proof {
                    let next = cs.subrange(0, i + 1);
                    assert(next.subrange(0, next.len() - 1) =~= cs.subrange(0, i as int));
                    assert(next[next.len() - 1] == cs[i as int]);
                    assert forall|x: Seq<char>|
                        views(out@).contains(x) <==> any_mentions(next, x) by {
                        assert(any_mentions(next, x) == (any_mentions(cs.subrange(0, i as int), x)
                            || mentions(cs[i as int], x)));
                        lemma_concat_contains(mid, views(part@), x);
                    }
                }
                i = i + 1;
            }
            assert(cs.subrange(0, cs.len() as int) =~= cs);
        },
    }
    out
}

/// The attributes that `command` mentions, sorted lexicographically and free
/// of duplicates.
pub fn get_command_attributes(command: &Command) -> (r: Vec<String>)
    ensures
        strictly_sorted(views(r@)),
        forall|x: Seq<char>| views(r@).contains(x) <==> mentions(*command, x),
{
    sort_unique(collect_attributes(command))
}

/// `c` is the single command `attribute operator value` of the given kind.
pub open spec fn single_of(c: Command, attribute: Seq<char>, operator: Operator, value: Seq<char>, kind: DataType) -> bool {
    match c {
        Command::SingleCommand(sc) => sc.attribute@ == attribute && sc.operator == operator && sc.value.value@
            == value && sc.value.data_type == kind,
        _ => false,
    }
}

/// `movies.movie.runtime > 200`.
pub fn simple_command_creation() -> (r: SingleCommand)
    ensures
        r.attribute@ == "movies.movie.runtime"@,
        r.operator == Operator::GreaterThan,
        r.value.value@ == "200"@,
        r.value.data_type == DataType::Integer,
{
    SingleCommand::new(
        String::from_str("movies.movie.runtime"),
        Operator::GreaterThan,
        Value::new(String::from_str("200"), DataType::Integer),
    )
}

/// `(runtime > 200 OR revenue > 1000000) AND budget > 1000000` over
/// `movies.movie`.
pub fn composite_command_creation() -> (r: CompositeCommand)
    ensures
        r.logical_operator == LogicalOperator::And,
        r.commands.len() == 2,
        well_formed(Command::CompositeCommand(r)),
        r.commands@[0] matches Command::CompositeCommand(inner) && inner.logical_operator
            == LogicalOperator::Or && inner.commands.len() == 2 && single_of(
            inner.commands@[0],
            "movies.movie.runtime"@,
            Operator::GreaterThan,
            "200"@,
            DataType::Integer,
        ) && single_of(
            inner.commands@[1],
            "movies.movie.revenue"@,
            Operator::GreaterThan,
            "1000000"@,
            DataType::Integer,
        ),
        single_of(r.commands@[1], "movies.movie.budget"@, Operator::GreaterThan, "1000000"@, DataType::Integer),
{
    let runtime = SingleCommand::new(
        String::from_str("movies.movie.runtime"),
        Operator::GreaterThan,
        Value::new(String::from_str("200"), DataType::Integer),
    );
    let revenue = SingleCommand::new(
        String::from_str("movies.movie.revenue"),
        Operator::GreaterThan,
        Value::new(String::from_str("1000000"), DataType::Integer),
    );
    let budget = SingleCommand::new(
        String::from_str("movies.movie.budget"),
        Operator::GreaterThan,
        Value::new(String::from_str("1000000"), DataType::Integer),
    );
    let mut nested: Vec<Command> = Vec::new();
    nested.push(Command::SingleCommand(runtime));
    nested.push(Command::SingleCommand(revenue));
    let inner = CompositeCommand::new(LogicalOperator::Or, nested);
    let mut outer: Vec<Command> = Vec::new();
    outer.push(Command::CompositeCommand(inner));
    outer.push(Command::SingleCommand(budget));
    let r = CompositeCommand::new(LogicalOperator::And, outer);
    proof {
        lemma_all_well_formed(inner.commands@);
        lemma_all_well_formed(r.commands@);
    }
    r
}

} // verus!
