//! The SQL synthesizer: a command tree, a projection and a join resolution
//! become one `SELECT … FROM … WHERE …;` statement.

use vstd::prelude::*;

use crate::command::{
    get_command_attributes, logical_name, mentions, well_formed, Command, DataType, LogicalOperator,
    Operator,
};
use crate::literal::literal_type;
use crate::parser::{decide, denotes, operator_of, parse_fault, tokens};
use crate::table_search::{position, table_of, TableSearch, TableSearchError};
use crate::text::{
    chars_of, find_from, find_pattern, lemma_views, push_chars, slice_chars, strictly_sorted, string_of,
    views,
};

verus! {

/// The items joined by `sep`.
pub open spec fn join_with(items: Seq<Seq<char>>, sep: Seq<char>) -> Seq<char>
    decreases items.len(),
{
    if items.len() == 0 {
        Seq::empty()
    } else if items.len() == 1 {
        items[0]
    } else {
        join_with(items.drop_last(), sep) + sep + items[items.len() - 1]
    }
}

/// The `SELECT` clause: the projection, or `*` where it is empty.
pub open spec fn select_text(projection: Seq<Seq<char>>) -> Seq<char> {
    if projection.len() == 0 {
        "SELECT *"@
    } else {
        "SELECT "@ + join_with(projection, ", "@)
    }
}

/// The `FROM` clause.
pub open spec fn from_text(tables: Seq<Seq<char>>) -> Seq<char> {
    "FROM "@ + join_with(tables, ", "@)
}

/// The symbol of an operator, with a space on each side.
pub open spec fn operator_symbol(op: Operator) -> Seq<char> {
    match op {
        Operator::EqualTo => " = "@,
        Operator::GreaterThan => " > "@,
        Operator::LessThan => " < "@,
        Operator::GreaterThanOrEqualTo => " >= "@,
        Operator::LessThanOrEqualTo => " <= "@,
        Operator::NotEqualTo => " <> "@,
    }
}

/// A literal as SQL: single-quoted exactly when its kind is `String`.
pub open spec fn value_text(value: Seq<char>, kind: DataType) -> Seq<char> {
    if kind == DataType::String {
        "'"@ + value + "'"@
    } else {
        value
    }
}

/// A command as SQL: a single node is `(attribute OP value)`, a composite
/// one `(left LOP right)` over its first two children.
pub open spec fn command_text(c: Command) -> Seq<char>
    decreases c,
{
    match c {
        Command::SingleCommand(sc) => "("@ + sc.attribute@ + operator_symbol(sc.operator) + value_text(
            sc.value.value@,
            sc.value.data_type,
        ) + ")"@,
        Command::CompositeCommand(cc) => if cc.commands.len() >= 2 {
            "("@ + command_text(cc.commands@[0]) + " "@ + logical_name(cc.logical_operator) + " "@
                + command_text(cc.commands@[1]) + ")"@
        } else {
            "("@ + ")"@
        },
    }
}

/// A join predicate `a:b` as SQL: `a = b`.
pub open spec fn predicate_text(q: Seq<char>) -> Seq<char> {
    match find_from(q, seq![':'], 0) {
        Some(p) => q.subrange(0, p) + " = "@ + q.subrange(p + 1, q.len() as int),
        None => q,
    }
}

/// Each predicate as SQL.
pub open spec fn predicate_texts(preds: Seq<Seq<char>>) -> Seq<Seq<char>> {
    Seq::new(preds.len(), |i: int| predicate_text(preds[i]))
}

/// The join-predicate block: the predicates joined by ` AND `, in
/// parentheses; nothing where there are none.
pub open spec fn join_block(preds: Seq<Seq<char>>) -> Seq<char> {
    if preds.len() == 0 {
        Seq::empty()
    } else {
        "("@ + join_with(predicate_texts(preds), " AND "@) + ")"@
    }
}

/// The `WHERE` clause.
pub open spec fn where_text(c: Command, preds: Seq<Seq<char>>) -> Seq<char> {
    "WHERE "@ + join_block(preds) + (if preds.len() > 0 {
        " AND "@
    } else {
        Seq::empty()
    }) + command_text(c)
}

/// The whole statement.
pub open spec fn query_text(
    projection: Seq<Seq<char>>,
    c: Command,
    tables: Seq<Seq<char>>,
    preds: Seq<Seq<char>>,
) -> Seq<char> {
    select_text(projection) + "\n"@ + from_text(tables) + "\n"@ + where_text(c, preds) + ";"@
}

/// `q` is the statement for the projection and the command: their attributes
/// (the projection, then the command's attributes sorted and free of
/// duplicates) resolve to tables `t` and predicates `p`, and `q` is the text
/// built from them.
pub open spec fn synthesized(ts: &TableSearch, projection: Seq<Seq<char>>, c: Command, q: Seq<char>) -> bool {
    exists|attrs: Seq<Seq<char>>, t: Seq<Seq<char>>, p: Seq<Seq<char>>|
        #[trigger] ts.resolves(attrs, t, p) && query_attributes(projection, c, attrs)
            && q == query_text(projection, c, t, p)
}

/// `attrs` is the projection followed by the command's attributes, sorted
/// and free of duplicates.
pub open spec fn query_attributes(projection: Seq<Seq<char>>, c: Command, attrs: Seq<Seq<char>>) -> bool {
    &&& attrs.len() >= projection.len()
    &&& attrs.subrange(0, projection.len() as int) == projection
    &&& strictly_sorted(attrs.subrange(projection.len() as int, attrs.len() as int))
    &&& forall|x: Seq<char>|
        attrs.subrange(projection.len() as int, attrs.len() as int).contains(x) <==> mentions(c, x)
}

/// Synthesis fails with `e` exactly when resolving the query's attributes
/// does.
pub open spec fn synthesis_failure(ts: &TableSearch, projection: Seq<Seq<char>>, c: Command, e: TableSearchError) -> bool {
    exists|attrs: Seq<Seq<char>>| #[trigger] query_attributes(projection, c, attrs) && ts.join_failure(attrs, e)
}

/// Synthesis is deterministic: for one graph, projection and command there
/// is exactly one statement, whatever the order in which sets were built.
pub proof fn lemma_synthesis_stable(ts: &TableSearch, projection: Seq<Seq<char>>, c: Command, qa: Seq<char>, qb: Seq<char>)
    requires
        synthesized(ts, projection, c, qa),
        synthesized(ts, projection, c, qb),
    ensures
        qa == qb,
{
    let (aa, ta, pa) = choose|attrs: Seq<Seq<char>>, t: Seq<Seq<char>>, p: Seq<Seq<char>>|
        #[trigger] ts.resolves(attrs, t, p) && query_attributes(projection, c, attrs)
            && qa == query_text(projection, c, t, p);
    let (ab, tb, pb) = choose|attrs: Seq<Seq<char>>, t: Seq<Seq<char>>, p: Seq<Seq<char>>|
        #[trigger] ts.resolves(attrs, t, p) && query_attributes(projection, c, attrs)
            && qb == query_text(projection, c, t, p);
    let ra = aa.subrange(projection.len() as int, aa.len() as int);
    let rb = ab.subrange(projection.len() as int, ab.len() as int);
    assert forall|x: Seq<char>| ra.contains(x) <==> rb.contains(x) by {
        assert(ra.contains(x) <==> mentions(c, x));
        assert(rb.contains(x) <==> mentions(c, x));
    }
    crate::text::lemma_sorted_unique(ra, rb);
    assert(aa =~= projection + ra);
    assert(ab =~= projection + rb);
    ts.lemma_resolves_unique(aa, ta, pa, tb, pb);
}

/// The attributes of a query are determined by its projection and command.
proof fn lemma_query_attributes_unique(projection: Seq<Seq<char>>, c: Command, aa: Seq<Seq<char>>, ab: Seq<Seq<char>>)
    requires
        query_attributes(projection, c, aa),
        query_attributes(projection, c, ab),
    ensures
        aa == ab,
{
    let ra = aa.subrange(projection.len() as int, aa.len() as int);
    let rb = ab.subrange(projection.len() as int, ab.len() as int);
    assert forall|x: Seq<char>| ra.contains(x) <==> rb.contains(x) by {
        assert(ra.contains(x) <==> mentions(c, x));
        assert(rb.contains(x) <==> mentions(c, x));
    }
    crate::text::lemma_sorted_unique(ra, rb);
    assert(aa =~= projection + ra);
    assert(ab =~= projection + rb);
}

/// For one graph, projection and command, synthesis either succeeds or
/// fails: never both.
pub proof fn lemma_synthesis_exclusive(
    ts: &TableSearch,
    projection: Seq<Seq<char>>,
    c: Command,
    q: Seq<char>,
    e: TableSearchError,
)
    requires
        synthesized(ts, projection, c, q),
    ensures
        !synthesis_failure(ts, projection, c, e),
{
    if synthesis_failure(ts, projection, c, e) {
        let (aa, t, p) = choose|attrs: Seq<Seq<char>>, t: Seq<Seq<char>>, p: Seq<Seq<char>>|
            #[trigger] ts.resolves(attrs, t, p) && query_attributes(projection, c, attrs)
                && q == query_text(projection, c, t, p);
        let ab = choose|attrs: Seq<Seq<char>>| #[trigger] query_attributes(projection, c, attrs) && ts.join_failure(attrs, e);
        lemma_query_attributes_unique(projection, c, aa, ab);
        reveal(TableSearch::resolves);
        if e is TableNotFoundInGraph {
            let x = e->TableNotFoundInGraph_0;
            let k = choose|k: int|
                0 <= k < ab.len() && x@ == table_of(#[trigger] ab[k]) && position(ts.nodes(), x@) is None
                    && forall|m: int| 0 <= m < k ==> position(ts.nodes(), table_of(#[trigger] ab[m])) is Some;
            assert(position(ts.nodes(), table_of(ab[k])) is Some);
        }
    }
}

fn join_strings(items: &Vec<String>, sep: &str) -> (r: String)
    ensures
        r@ == join_with(views(items@), sep@),
{
    let mut r = String::new();
    let mut i: usize = 0;
    while i < items.len()
        invariant
            i <= items.len(),
            r@ == join_with(views(items@).subrange(0, i as int), sep@),
        decreases items.len() - i,
    {
        let ghost prev = views(items@).subrange(0, i as int);
        let ghost next = views(items@).subrange(0, i + 1);
        assert(next.drop_last() =~= prev);
        if i > 0 {
            push_chars(&mut r, sep);
        } else {
            assert(prev.len() == 0);
        }
        push_chars(&mut r, items[i].as_str());
        assert(r@ =~= join_with(next, sep@));
        i = i + 1;
    }
    assert(views(items@).subrange(0, items.len() as int) =~= views(items@));
    r
}

/// `SELECT` and the comma-joined projection.
pub fn create_select_query(projection: Vec<String>) -> (r: String)
    ensures
        r@ == select_text(views(projection@)),
{
    if projection.len() == 0 {
        return String::from_str("SELECT *");
    }
    let mut r = String::from_str("SELECT ");
    let items = join_strings(&projection, ", ");
    push_chars(&mut r, items.as_str());
    r
}

/// `FROM` and the comma-joined tables.
pub fn create_from_query(tables: Vec<String>) -> (r: String)
    ensures
        r@ == from_text(views(tables@)),
{
    let mut r = String::from_str("FROM ");
    let items = join_strings(&tables, ", ");
    push_chars(&mut r, items.as_str());
    r
}

/// The SQL symbol of an operator, spaced.
pub fn translate_operator(operator: &Operator) -> (r: String)
    ensures
        r@ == operator_symbol(*operator),
{
    match operator {
        Operator::EqualTo => String::from_str(" = "),
        Operator::GreaterThan => String::from_str(" > "),
        Operator::LessThan => String::from_str(" < "),
        Operator::GreaterThanOrEqualTo => String::from_str(" >= "),
        Operator::LessThanOrEqualTo => String::from_str(" <= "),
        Operator::NotEqualTo => String::from_str(" <> "),
    }
}

fn predicate_sql(q: &String) -> (r: String)
    ensures
        r@ == predicate_text(q@),
{
    let t = chars_of(q.as_str());
    let colon = vec![':'];
    assert(colon@ =~= seq![':']);
    match find_pattern(&t, &colon, 0) {
        Some(p) => {
            let mut r = string_of(slice_chars(&t, 0, p).as_slice());
            push_chars(&mut r, " = ");
            let rest = string_of(slice_chars(&t, p + 1, t.len()).as_slice());
            push_chars(&mut r, rest.as_str());
            r
        },
        None => q.clone(),
    }
}

/// Appends the join-predicate block to `where_query`.
pub fn create_where_for_join(where_query: String, join_atribute_pairs: &Vec<String>) -> (r: String)
    ensures
        r@ == where_query@ + join_block(views(join_atribute_pairs@)),
{
    let mut r = where_query;
    if join_atribute_pairs.len() == 0 {
        assert(r@ =~= where_query@ + join_block(views(join_atribute_pairs@)));
        return r;
    }
    let mut rendered: Vec<String> = Vec::new();
    let mut i: usize = 0;
    while i < join_atribute_pairs.len()
        invariant
            i <= join_atribute_pairs.len(),
            views(rendered@) == predicate_texts(views(join_atribute_pairs@).subrange(0, i as int)),
        decreases join_atribute_pairs.len() - i,
    {
        let ghost prev = rendered@;
        let one = predicate_sql(&join_atribute_pairs[i]);
        let ghost ov = one@;
        rendered.push(one);
        proof {
            lemma_views(prev);
            lemma_views(rendered@);
            lemma_views(join_atribute_pairs@);
            assert(views(rendered@) =~= views(prev).push(ov));
        }
        assert(views(rendered@) =~= predicate_texts(views(join_atribute_pairs@).subrange(0, i + 1)));
        i = i + 1;
    }
    assert(views(join_atribute_pairs@).subrange(0, i as int) =~= views(join_atribute_pairs@));
    push_chars(&mut r, "(");
    let body = join_strings(&rendered, " AND ");
    push_chars(&mut r, body.as_str());
    push_chars(&mut r, ")");
    assert(r@ =~= where_query@ + join_block(views(join_atribute_pairs@)));
    r
}

/// Appends the command block to `where_query`.
pub fn create_where_for_command(where_query: String, command: &Command) -> (r: String)
    requires
        well_formed(*command),
    ensures
        r@ == where_query@ + command_text(*command),
    decreases command,
{
    let mut r = where_query;
    let ghost start = r@;
    push_chars(&mut r, "(");
    match command {
        Command::CompositeCommand(cc) => {
            proof {
                crate::command::lemma_all_well_formed(cc.commands@);
                vstd::std_specs::vec::axiom_vec_index_decreases(cc.commands, 0);
                vstd::std_specs::vec::axiom_vec_index_decreases(cc.commands, 1);
                assert(decreases_to!(*command => (*command)->CompositeCommand_0.commands));
            }
            r = create_where_for_command(r, &cc.commands[0]);
            push_chars(&mut r, " ");
            let lop = cc.logical_operator.name();
            push_chars(&mut r, lop.as_str());
            push_chars(&mut r, " ");
            r = create_where_for_command(r, &cc.commands[1]);
        },
        Command::SingleCommand(sc) => {
            push_chars(&mut r, sc.attribute.as_str());
            let op = translate_operator(&sc.operator);
            push_chars(&mut r, op.as_str());
            if sc.value.data_type == DataType::String {
                push_chars(&mut r, "'");
                push_chars(&mut r, sc.value.value.as_str());
                push_chars(&mut r, "'");
            } else {
                push_chars(&mut r, sc.value.value.as_str());
            }
        },
    }
    push_chars(&mut r, ")");
    assert(r@ =~= start + command_text(*command));
    r
}

/// `WHERE`, the join-predicate block, ` AND ` where there are predicates, and
/// the command block.
pub fn create_where_query(command: &Command, join_atribute_pairs: &Vec<String>) -> (r: String)
    requires
        well_formed(*command),
    ensures
        r@ == where_text(*command, views(join_atribute_pairs@)),
{
    let r = String::from_str("WHERE ");
    let mut r = create_where_for_join(r, join_atribute_pairs);
    if join_atribute_pairs.len() > 0 {
        push_chars(&mut r, " AND ");
    }
    let r = create_where_for_command(r, command);
    assert(r@ =~= where_text(*command, views(join_atribute_pairs@)));
    r
}

/// Synthesizes the statement for a projection and a command: the attributes
/// of both are resolved to tables and join predicates, and the clauses are
/// joined by line breaks and closed by `;`.
pub fn command_to_query(projection: Vec<String>, command: &Command, table_search: &TableSearch) -> (r: Result<String, TableSearchError>)
    requires
        well_formed(*command),
    ensures
        match r {
            Ok(q) => synthesized(table_search, views(projection@), *command, q@),
            Err(e) => synthesis_failure(table_search, views(projection@), *command, e),
        },
{
    let mut attributes_needed: Vec<String> = Vec::new();
    let mut i: usize = 0;
    while i < projection.len()
        invariant
            i <= projection.len(),
            views(attributes_needed@) == views(projection@).subrange(0, i as int),
        decreases projection.len() - i,
    {
        let ghost prev = attributes_needed@;
        attributes_needed.push(projection[i].clone());
        proof {
            lemma_views(prev);
            lemma_views(attributes_needed@);
            lemma_views(projection@);
            assert(views(attributes_needed@) =~= views(prev).push(projection@[i as int]@));
        }
        assert(views(attributes_needed@) =~= views(projection@).subrange(0, i + 1));
        i = i + 1;
    }
    let from_command = get_command_attributes(command);
    let mut k: usize = 0;
    while k < from_command.len()
        invariant
            k <= from_command.len(),
            views(attributes_needed@) == views(projection@) + views(from_command@).subrange(0, k as int),
        decreases from_command.len() - k,
    {
        let ghost prev = attributes_needed@;
        attributes_needed.push(from_command[k].clone());
        proof {
            lemma_views(prev);
            lemma_views(attributes_needed@);
            lemma_views(from_command@);
            assert(views(attributes_needed@) =~= views(prev).push(from_command@[k as int]@));
        }
        assert(views(attributes_needed@) =~= views(projection@) + views(from_command@).subrange(0, k + 1));
        k = k + 1;
    }
    assert(views(from_command@).subrange(0, k as int) =~= views(from_command@));
    let ghost proj = views(projection@);
    let ghost attrs = views(attributes_needed@);
    let (tables, preds) = match table_search.get_join_requirements(&attributes_needed) {
        Ok(r) => r,
        Err(e) => {
            proof {
                lemma_views(attributes_needed@);
                assert(attrs.subrange(0, proj.len() as int) =~= proj);
                assert(attrs.subrange(proj.len() as int, attrs.len() as int) =~= views(from_command@));
                assert(query_attributes(proj, *command, attrs));
                if e is TableNotFoundInGraph {
                    let x = e->TableNotFoundInGraph_0;
                    {
                        let k = choose|k: int|
                            0 <= k < attributes_needed.len() && x@ == table_of(#[trigger] attributes_needed@[k]@) && position(
                                table_search.nodes(),
                                x@,
                            ) is None && forall|m: int|
                                0 <= m < k ==> position(table_search.nodes(), table_of(#[trigger] attributes_needed@[m]@)) is Some;
                        assert(x@ == table_of(attrs[k]));
                        assert forall|m: int| 0 <= m < k implies position(table_search.nodes(), table_of(#[trigger] attrs[m])) is Some by {
                            assert(attrs[m] == attributes_needed@[m]@);
                        }
                    }
                }
                assert(table_search.join_failure(attrs, e));
            }
            return Err(e);
        },
    };
    let ghost t = views(tables@);
    let ghost p = views(preds@);
    let mut query = create_select_query(projection);
    push_chars(&mut query, "\n");
    let from = create_from_query(tables);
    push_chars(&mut query, from.as_str());
    push_chars(&mut query, "\n");
    let where_query = create_where_query(command, &preds);
    push_chars(&mut query, where_query.as_str());
    push_chars(&mut query, ";");
    proof {
        assert(attrs.subrange(0, proj.len() as int) =~= proj);
        assert(attrs.subrange(proj.len() as int, attrs.len() as int) =~= views(from_command@));
        assert(query@ =~= query_text(proj, *command, t, p));
        assert(table_search.resolves(attrs, t, p));
    }
    Ok(query)
}

/// `c` does not occur in `s`.
pub open spec fn lacks(s: Seq<char>, c: char) -> bool {
    forall|j: int| 0 <= j < s.len() ==> s[j] != c
}

proof fn lemma_first_char(s: Seq<char>, c: char, i: int, k: int)
    requires
        0 <= i <= k < s.len(),
        s[k] == c,
        forall|j: int| i <= j < k ==> s[j] != c,
    ensures
        find_from(s, seq![c], i) == Some(k),
    decreases k - i,
{
    if i < k {
        assert(s.subrange(i, i + 1)[0] != c);
        lemma_first_char(s, c, i + 1, k);
    } else {
        assert(s.subrange(i, i + 1) =~= seq![c]);
    }
}

proof fn lemma_no_char(s: Seq<char>, c: char, i: int)
    requires
        0 <= i,
        forall|j: int| i <= j < s.len() ==> s[j] != c,
    ensures
        find_from(s, seq![c], i) is None,
    decreases s.len() + 1 - i,
{
    if i + 1 <= s.len() {
        assert(s.subrange(i, i + 1)[0] != c);
        lemma_no_char(s, c, i + 1);
    }
}

/// Parsing a terminal `attribute operator literal` and rendering the result
/// gives `(attribute OP value)`: the operator word becomes its symbol and the
/// literal is quoted exactly when it is typed `String`.
pub proof fn lemma_terminal_round_trip(a: Seq<char>, w: Seq<char>, l: Seq<char>, c: Command)
    requires
        lacks(a, ' '),
        lacks(w, ' '),
        lacks(l, ' '),
        operator_of(w) is Some,
        decide(a + seq![' '] + w + seq![' '] + l) is None,
        denotes(a + seq![' '] + w + seq![' '] + l, c),
    ensures
        parse_fault(a + seq![' '] + w + seq![' '] + l) is None,
        command_text(c) == "("@ + a + operator_symbol(operator_of(w)->Some_0) + value_text(
            l,
            literal_type(l),
        ) + ")"@,
{
    let e = a + seq![' '] + w + seq![' '] + l;
    let n = a.len() as int;
    let m = w.len() as int;
    assert forall|j: int| 0 <= j < n implies e[j] != ' ' by {
        assert(e[j] == a[j]);
    }
    lemma_first_char(e, ' ', 0, n);
    assert forall|j: int| n + 1 <= j < n + 1 + m implies e[j] != ' ' by {
        assert(e[j] == w[j - n - 1]);
    }
    lemma_first_char(e, ' ', n + 1, n + 1 + m);
    assert forall|j: int| n + m + 2 <= j < e.len() implies e[j] != ' ' by {
        assert(e[j] == l[j - n - m - 2]);
    }
    lemma_no_char(e, ' ', n + m + 2);
    assert(e.subrange(0, n) =~= a);
    assert(e.subrange(n + 1, n + 1 + m) =~= w);
    assert(e.subrange(n + m + 2, e.len() as int) =~= l);
    assert(tokens(e) == Some((a, w, l)));
}

/// The normal form of a filter text, read straight off the text: each
/// connective the parser splits at becomes `(left LOP right)` and each
/// terminal `(attribute OP value)`.
pub open spec fn normal_form(e: Seq<char>) -> Seq<char>
    decreases e.len(),
{
    match decide(e) {
        Some((op, l, r)) => if l.len() + r.len() < e.len() {
            "("@ + normal_form(l) + " "@ + logical_name(op) + " "@ + normal_form(r) + ")"@
        } else {
            Seq::empty()
        },
        None => match tokens(e) {
            Some((a, w, lit)) => match operator_of(w) {
                Some(o) => "("@ + a + operator_symbol(o) + value_text(lit, literal_type(lit)) + ")"@,
                None => Seq::empty(),
            },
            None => Seq::empty(),
        },
    }
}

/// Parsing a filter text and rendering the command gives the text's normal
/// form.
pub proof fn lemma_parse_render_round_trip(e: Seq<char>, c: Command)
    requires
        denotes(e, c),
    ensures
        command_text(c) == normal_form(e),
    decreases e.len(),
{
    match decide(e) {
        Some((op, l, r)) => {
            let cc = c->CompositeCommand_0;
            lemma_parse_render_round_trip(l, cc.commands@[0]);
            lemma_parse_render_round_trip(r, cc.commands@[1]);
        },
        None => {},
    }
}

} // verus!
