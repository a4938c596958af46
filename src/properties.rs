//! The filter properties: the catalog's attributes partitioned by the
//! connected components of the schema graph, and the operator vocabulary.

use vstd::prelude::*;

use crate::catalog::{native_kind, qualified_name, table_id, translate_native_type, Attribute, DbSchema, Table, TypeError};
use crate::command::{data_type_name, logical_name, operator_name, DataType, LogicalOperator, Operator};
use crate::table_search::{position, TableSearch, TableSearchError};
use crate::text::{lemma_views, views};

verus! {

/// An attribute as the properties publish it.
#[derive(Clone, Debug, PartialEq)]
pub struct AttributeInfo {
    pub name: String,
    pub data_type: DataType,
    pub subset_id: usize,
}

impl AttributeInfo {
    pub fn new(name: String, data_type: DataType, subset_id: usize) -> (r: Self)
        ensures
            r.name@ == name@,
            r.data_type == data_type,
            r.subset_id == subset_id,
    {
        AttributeInfo { name, data_type, subset_id }
    }
}

/// The published filter properties.
#[derive(Clone, Debug)]
pub struct Properties {
    /// Every attribute of the catalog, table by table in declared order.
    pub attributes: Vec<AttributeInfo>,
    /// For each subset, the indices of its attributes, ascending.
    pub subsets: Vec<Vec<usize>>,
    pub operators: Vec<String>,
    pub logical_operators: Vec<String>,
}

/// Why the properties could not be built.
#[derive(PartialEq, Debug, Clone)]
pub enum PropertiesError {
    Type(TypeError),
    Graph(TableSearchError),
}

/// Each attribute is listed in the subset its id names and in no other, and
/// every id names a subset.
pub open spec fn partitioned(attributes: Seq<AttributeInfo>, subsets: Seq<Vec<usize>>) -> bool {
    &&& forall|i: int| 0 <= i < attributes.len() ==> #[trigger] attributes[i].subset_id < subsets.len()
    &&& forall|i: int|
        0 <= i < attributes.len() ==> subsets[attributes[i].subset_id as int]@.contains(i as usize)
    &&& forall|s: int, k: int|
        0 <= s < subsets.len() && 0 <= k < subsets[s]@.len() ==> #[trigger] subsets[s]@[k]
            < attributes.len() && attributes[subsets[s]@[k] as int].subset_id == s
}

/// The columns of table `t`: for each attribute, in declared order, the
/// table's index and identifier, the column name and its native type.
pub open spec fn table_columns(tables: Seq<Table>, t: int) -> Seq<(int, Seq<char>, Seq<char>, Seq<char>)> {
    Seq::new(
        tables[t].attributes.len() as nat,
        |i: int|
            (
                t,
                table_id(tables[t].schema@, tables[t].name@),
                tables[t].attributes@[i].name@,
                tables[t].attributes@[i].data_type@,
            ),
    )
}

/// Every column of the catalog: table by table, then in declared order.
pub open spec fn catalog_columns(tables: Seq<Table>) -> Seq<(int, Seq<char>, Seq<char>, Seq<char>)>
    decreases tables.len(),
{
    if tables.len() == 0 {
        Seq::empty()
    } else {
        catalog_columns(tables.drop_last()) + table_columns(tables, tables.len() - 1)
    }
}

/// The index of the first representative at or after `i` connected to `id`,
/// or the number of representatives.
pub open spec fn first_connected(ts: TableSearch, id: Seq<char>, reps: Seq<Seq<char>>, i: int) -> int
    decreases reps.len() - i,
{
    if i < 0 || i >= reps.len() {
        reps.len() as int
    } else if ts.connected(id, reps[i]) {
        i
    } else {
        first_connected(ts, id, reps, i + 1)
    }
}

/// The representatives after the given tables: a table becomes one when it
/// is connected to none of those before it.
pub open spec fn representatives_of(ts: TableSearch, tables: Seq<Table>) -> Seq<Seq<char>>
    decreases tables.len(),
{
    if tables.len() == 0 {
        Seq::empty()
    } else {
        let reps = representatives_of(ts, tables.drop_last());
        let id = table_id(tables.last().schema@, tables.last().name@);
        if first_connected(ts, id, reps, 0) == reps.len() {
            reps.push(id)
        } else {
            reps
        }
    }
}

/// The subset of table `t`: the first earlier representative it is connected
/// to, or a new one.
pub open spec fn subset_of(ts: TableSearch, tables: Seq<Table>, t: int) -> int {
    first_connected(
        ts,
        table_id(tables[t].schema@, tables[t].name@),
        representatives_of(ts, tables.subrange(0, t)),
        0,
    )
}

/// The first native type among the attributes that has no kind.
pub open spec fn first_unknown_type(attrs: Seq<Attribute>) -> Option<Seq<char>>
    decreases attrs.len(),
{
    if attrs.len() == 0 {
        None
    } else {
        match first_unknown_type(attrs.drop_last()) {
            Some(x) => Some(x),
            None => if native_kind(attrs.last().data_type@) is None {
                Some(attrs.last().data_type@)
            } else {
                None
            },
        }
    }
}

/// The first fault met walking the catalog table by table: a table that is
/// not a node of the graph (`false`), or, within a table, a native type
/// without a kind (`true`).
pub open spec fn catalog_fault(ts: TableSearch, tables: Seq<Table>) -> Option<(bool, Seq<char>)>
    decreases tables.len(),
{
    if tables.len() == 0 {
        None
    } else {
        match catalog_fault(ts, tables.drop_last()) {
            Some(f) => Some(f),
            None => {
                let id = table_id(tables.last().schema@, tables.last().name@);
                if position(ts.nodes(), id) is None {
                    Some((false, id))
                } else {
                    match first_unknown_type(tables.last().attributes@) {
                        Some(x) => Some((true, x)),
                        None => None,
                    }
                }
            },
        }
    }
}

proof fn lemma_unknown_prefix(attrs: Seq<Attribute>, n: int)
    requires
        0 <= n <= attrs.len(),
        first_unknown_type(attrs.subrange(0, n)) is Some,
    ensures
        first_unknown_type(attrs) == first_unknown_type(attrs.subrange(0, n)),
    decreases attrs.len() - n,
{
    if n < attrs.len() {
        let longer = attrs.subrange(0, n + 1);
        assert(longer.drop_last() =~= attrs.subrange(0, n));
        lemma_unknown_prefix(attrs, n + 1);
    } else {
        assert(attrs.subrange(0, n) =~= attrs);
    }
}

proof fn lemma_fault_prefix(ts: TableSearch, tables: Seq<Table>, n: int)
    requires
        0 <= n <= tables.len(),
        catalog_fault(ts, tables.subrange(0, n)) is Some,
    ensures
        catalog_fault(ts, tables) == catalog_fault(ts, tables.subrange(0, n)),
    decreases tables.len() - n,
{
    if n < tables.len() {
        let longer = tables.subrange(0, n + 1);
        assert(longer.drop_last() =~= tables.subrange(0, n));
        lemma_fault_prefix(ts, tables, n + 1);
    } else {
        assert(tables.subrange(0, n) =~= tables);
    }
}

/// The published attribute for a catalog column.
pub open spec fn column_info(
    info: AttributeInfo,
    col: (int, Seq<char>, Seq<char>, Seq<char>),
    ts: TableSearch,
    tables: Seq<Table>,
) -> bool {
    &&& info.name@ == col.1 + seq!['.'] + col.2
    &&& native_kind(col.3) == Some(info.data_type)
    &&& info.subset_id == subset_of(ts, tables, col.0)
}

/// The published names of a sequence of operators.
pub open spec fn operator_names(ops: Seq<Operator>) -> Seq<Seq<char>> {
    Seq::new(ops.len(), |i: int| operator_name(ops[i]))
}

/// Groups tables into subsets of joinable tables.
pub struct PropertiesService {}

impl PropertiesService {
    /// Whether a path joins the two tables.
    pub fn are_tables_joinable(&self, table_a: &String, table_b: &String, table_search: &TableSearch) -> (r: Result<bool, TableSearchError>)
        ensures
            match r {
                Ok(b) => b == table_search.connected(table_a@, table_b@) && position(table_search.nodes(), table_a@) is Some && position(table_search.nodes(), table_b@) is Some,
                Err(TableSearchError::TableNotFoundInGraph(x)) => (position(table_search.nodes(), table_a@) is None && x@ == table_a@)
                    || (position(table_search.nodes(), table_a@) is Some && position(table_search.nodes(), table_b@) is None && x@ == table_b@),
                Err(TableSearchError::AtributesCantBeJoined) => false,
            },
    {
        match table_search.path_to(table_a.clone(), table_b.clone()) {
            Ok((tables, _)) => Ok(tables.len() > 0),
            Err(e) => Err(e),
        }
    }

    /// The first subset whose representative is joinable with `table`, or
    /// the number of subsets where there is none.
    pub fn find_table_subset_id(&self, table: &String, representatives: &Vec<String>, table_search: &TableSearch) -> (r: Result<usize, TableSearchError>)
        requires
            forall|k: int| 0 <= k < representatives.len() ==> position(table_search.nodes(), #[trigger] representatives@[k]@) is Some,
        ensures
            match r {
                Ok(s) => s == first_connected(*table_search, table@, views(representatives@), 0) && s <= representatives.len()
                    && (s < representatives.len() ==> table_search.connected(table@, representatives@[s as int]@))
                    && forall|k: int| 0 <= k < s ==> !table_search.connected(table@, #[trigger] representatives@[k]@),
                Err(TableSearchError::TableNotFoundInGraph(x)) => position(table_search.nodes(), table@) is None && x@ == table@,
                Err(TableSearchError::AtributesCantBeJoined) => false,
            },
    {
        let mut k: usize = 0;
        while k < representatives.len()
            invariant
                k <= representatives.len(),
                forall|m: int| 0 <= m < k ==> !table_search.connected(table@, #[trigger] representatives@[m]@),
                forall|m: int| 0 <= m < representatives.len() ==> position(table_search.nodes(), #[trigger] representatives@[m]@) is Some,
                first_connected(*table_search, table@, views(representatives@), 0) == first_connected(*table_search, table@, views(representatives@), k as int),
            decreases representatives.len() - k,
        {
            proof {
                lemma_views(representatives@);
            }
            if self.are_tables_joinable(table, &representatives[k], table_search)? {
                return Ok(k);
            }
            k = k + 1;
        }
        proof {
            lemma_views(representatives@);
        }
        Ok(k)
    }
}

/// `p` lists every catalog column, in catalog order, named
/// `schema.table.column`, typed by its native type and placed in its table's
/// subset; there is one subset per representative, every attribute is in
/// exactly its own subset, two attributes share a subset exactly when their
/// tables are connected, and the vocabulary is in published order.
pub open spec fn describes(p: Properties, db_schema: DbSchema, ts: TableSearch) -> bool {
    let cols = catalog_columns(db_schema.tables@);
    &&& p.attributes.len() == cols.len()
    &&& forall|k: int| 0 <= k < cols.len() ==> column_info(#[trigger] p.attributes@[k], cols[k], ts, db_schema.tables@)
    &&& p.subsets.len() == representatives_of(ts, db_schema.tables@).len()
    &&& partitioned(p.attributes@, p.subsets@)
    &&& forall|i: int, j: int|
        0 <= i < cols.len() && 0 <= j < cols.len() ==> (p.attributes@[i].subset_id
            == p.attributes@[j].subset_id <==> ts.connected(#[trigger] cols[i].1, #[trigger] cols[j].1))
    &&& views(p.operators@) == seq![
        operator_name(Operator::EqualTo),
        operator_name(Operator::GreaterThan),
        operator_name(Operator::LessThan),
        operator_name(Operator::GreaterThanOrEqualTo),
        operator_name(Operator::LessThanOrEqualTo),
        operator_name(Operator::NotEqualTo),
    ]
    &&& views(p.logical_operators@) == seq![
        logical_name(LogicalOperator::And),
        logical_name(LogicalOperator::Or),
    ]
}

/// Builds the filter properties of a catalog over its schema graph.
///
/// Each table joins the first subset whose representative (its first table)
/// is connected to it, or opens a new one; its attributes follow in declared
/// order, named `schema.table.attribute` and typed by their native type.
pub fn get_filter_properties(db_schema: &DbSchema, table_search: &TableSearch) -> (r: Result<Properties, PropertiesError>)
    ensures
        match r {
            Ok(p) => catalog_fault(*table_search, db_schema.tables@) is None && describes(
                p,
                *db_schema,
                *table_search,
            ),
            Err(PropertiesError::Type(TypeError::UnknownType(t))) => catalog_fault(
                *table_search,
                db_schema.tables@,
            ) == Some((true, t@)),
            Err(PropertiesError::Graph(TableSearchError::TableNotFoundInGraph(x))) => catalog_fault(
                *table_search,
                db_schema.tables@,
            ) == Some((false, x@)),
            Err(PropertiesError::Graph(TableSearchError::AtributesCantBeJoined)) => false,
        },
{
    let ghost tables = db_schema.tables@;
    let ghost ts = *table_search;
    let mut attributes: Vec<AttributeInfo> = Vec::new();
    let mut subsets: Vec<Vec<usize>> = Vec::new();
    let mut representatives: Vec<String> = Vec::new();
    let ghost mut cols: Seq<(int, Seq<char>, Seq<char>, Seq<char>)> = Seq::empty();
    let service = PropertiesService {};
    proof {
        assert(tables.subrange(0, 0) =~= Seq::<Table>::empty());
        lemma_views(representatives@);
    }
    let mut t: usize = 0;
    while t < db_schema.tables.len()
        invariant
            t <= db_schema.tables.len(),
            tables == db_schema.tables@,
            ts == *table_search,
            catalog_fault(ts, tables.subrange(0, t as int)) is None,
            views(representatives@) == representatives_of(ts, tables.subrange(0, t as int)),
            cols == catalog_columns(tables.subrange(0, t as int)),
            subsets.len() == representatives.len(),
            partitioned(attributes@, subsets@),
            attributes.len() == cols.len(),
            forall|k: int| 0 <= k < cols.len() ==> column_info(#[trigger] attributes@[k], cols[k], ts, tables),
            forall|k: int| 0 <= k < cols.len() ==> 0 <= #[trigger] cols[k].0 < t,
            forall|k: int| 0 <= k < cols.len() ==> position(ts.nodes(), #[trigger] cols[k].1) is Some,
            forall|k: int| 0 <= k < cols.len() ==> ts.connected(#[trigger] cols[k].1, representatives@[attributes@[k].subset_id as int]@),
            forall|s: int| 0 <= s < representatives.len() ==> position(ts.nodes(), #[trigger] representatives@[s]@) is Some,
            forall|x: int, y: int| 0 <= x < y < representatives.len() ==> !ts.connected(#[trigger] representatives@[x]@, #[trigger] representatives@[y]@),
        decreases db_schema.tables.len() - t,
    {
        let table = &db_schema.tables[t];
        let full = qualified_name(&table.schema, &table.name);
        let ghost pre = tables.subrange(0, t as int);
        let ghost next = tables.subrange(0, t + 1);
        proof {
            assert(next.drop_last() =~= pre);
            assert(next.last() == tables[t as int]);
            lemma_views(representatives@);
        }
        let sid = match service.find_table_subset_id(&full, &representatives, table_search) {
            Ok(s) => s,
            Err(e) => {
                proof {
                    assert(catalog_fault(ts, next) == Some((false, full@)));
                    lemma_fault_prefix(ts, tables, t + 1);
                }
                return Err(PropertiesError::Graph(e));
            },
        };
        if sid == representatives.len() {
            match service.are_tables_joinable(&full, &full, table_search) {
                Ok(_) => {},
                Err(e) => {
                    proof {
                        assert(catalog_fault(ts, next) == Some((false, full@)));
                        lemma_fault_prefix(ts, tables, t + 1);
                    }
                    return Err(PropertiesError::Graph(e));
                },
            }
            proof {
                assert forall|x: int, y: int| 0 <= x < y < representatives.len() + 1 implies !ts.connected(
                    #[trigger] representatives@.push(full)[x]@,
                    #[trigger] representatives@.push(full)[y]@,
                ) by {
                    if y == representatives.len() {
                        if ts.connected(representatives@[x]@, full@) {
                            ts.lemma_connected_symmetric(representatives@[x]@, full@);
                        }
                    }
                }
            }
            let ghost before = representatives@;
            representatives.push(full.clone());
            subsets.push(Vec::new());
            proof {
                lemma_views(before);
                lemma_views(representatives@);
                assert(views(representatives@) =~= views(before).push(full@));
            }
        }
        proof {
            assert(views(representatives@) == representatives_of(ts, next));
            if position(ts.nodes(), full@) is Some {
                ts.lemma_connected_reflexive(full@);
            }
        }
        assert(ts.connected(full@, representatives@[sid as int]@));
        assert(sid as int == subset_of(ts, tables, t as int));
        let ghost attrs = table.attributes@;
        let mut a: usize = 0;
        proof {
            assert(attrs.subrange(0, 0) =~= Seq::<Attribute>::empty());
            assert(table_columns(tables, t as int).subrange(0, 0) =~= Seq::<(int, Seq<char>, Seq<char>, Seq<char>)>::empty());
            assert(cols + table_columns(tables, t as int).subrange(0, 0) =~= cols);
        }
        while a < table.attributes.len()
            invariant
                a <= table.attributes.len(),
                t < db_schema.tables.len(),
                tables == db_schema.tables@,
                ts == *table_search,
                table == &db_schema.tables[t as int],
                attrs == table.attributes@,
                full@ == table_id(tables[t as int].schema@, tables[t as int].name@),
                first_unknown_type(attrs.subrange(0, a as int)) is None,
                catalog_fault(ts, pre) is None,
                pre == tables.subrange(0, t as int),
                next == tables.subrange(0, t + 1),
                next.drop_last() == pre,
                next.last() == tables[t as int],
                position(ts.nodes(), full@) is Some,
                sid as int == subset_of(ts, tables, t as int),
                cols == catalog_columns(pre) + table_columns(tables, t as int).subrange(0, a as int),
                sid < subsets.len(),
                subsets.len() == representatives.len(),
                partitioned(attributes@, subsets@),
                attributes.len() == cols.len(),
                forall|k: int| 0 <= k < cols.len() ==> column_info(#[trigger] attributes@[k], cols[k], ts, tables),
                forall|k: int| 0 <= k < cols.len() ==> 0 <= #[trigger] cols[k].0 <= t,
                forall|k: int| 0 <= k < cols.len() ==> position(ts.nodes(), #[trigger] cols[k].1) is Some,
                forall|k: int| 0 <= k < cols.len() ==> ts.connected(#[trigger] cols[k].1, representatives@[attributes@[k].subset_id as int]@),
                ts.connected(full@, representatives@[sid as int]@),
                forall|s: int| 0 <= s < representatives.len() ==> position(ts.nodes(), #[trigger] representatives@[s]@) is Some,
                forall|x: int, y: int| 0 <= x < y < representatives.len() ==> !ts.connected(#[trigger] representatives@[x]@, #[trigger] representatives@[y]@),
            decreases table.attributes.len() - a,
        {
            let attribute = &table.attributes[a];
            proof {
                assert(attrs.subrange(0, a + 1).drop_last() =~= attrs.subrange(0, a as int));
                assert(attrs.subrange(0, a + 1).last() == attrs[a as int]);
            }
            let mut name = full.clone();
            push_dot_name(&mut name, &attribute.name);
            let data_type = match translate_native_type(attribute.data_type.clone()) {
                Ok(d) => d,
                Err(e) => {
                    proof {
                        assert(first_unknown_type(attrs.subrange(0, a + 1)) == Some(attribute.data_type@));
                        lemma_unknown_prefix(attrs, a + 1);
                        assert(catalog_fault(ts, next) == Some((true, attribute.data_type@)));
                        lemma_fault_prefix(ts, tables, t + 1);
                    }
                    return Err(PropertiesError::Type(e));
                },
            };
            let index = attributes.len();
            let ghost old_attrs = attributes@;
            let ghost old_subsets = subsets@;
            let ghost old_cols = cols;
            attributes.push(AttributeInfo::new(name, data_type, sid));
            proof {
                cols = cols.push(table_columns(tables, t as int)[a as int]);
                assert(table_columns(tables, t as int).subrange(0, a + 1) =~= table_columns(tables, t as int).subrange(0, a as int).push(table_columns(tables, t as int)[a as int]));
                assert(cols =~= catalog_columns(pre) + table_columns(tables, t as int).subrange(0, a + 1));
            }
            subsets[sid].push(index);
            proof {
                assert forall|i: int| 0 <= i < attributes.len() implies #[trigger] attributes@[i].subset_id < subsets.len() by {
                    if i < old_attrs.len() {
                        assert(old_attrs[i] == attributes@[i]);
                    }
                }
                assert forall|i: int| 0 <= i < attributes.len() implies subsets@[attributes@[i].subset_id as int]@.contains(i as usize) by {
                    if i < old_attrs.len() {
                        assert(old_attrs[i] == attributes@[i]);
                        let s = old_attrs[i].subset_id as int;
                        assert(old_subsets[s]@.contains(i as usize));
                        if s == sid {
                            let q = choose|q: int| 0 <= q < old_subsets[s]@.len() && old_subsets[s]@[q] == i as usize;
                            assert(subsets@[s]@[q] == i as usize);
                        }
                    } else {
                        assert(subsets@[sid as int]@[subsets@[sid as int]@.len() - 1] == index);
                    }
                }
                assert(subsets@[sid as int]@ =~= old_subsets[sid as int]@.push(index));
                assert forall|s: int, k: int|
                    0 <= s < subsets.len() && 0 <= k < subsets@[s]@.len() implies #[trigger] subsets@[s]@[k]
                        < attributes.len() && attributes@[subsets@[s]@[k] as int].subset_id == s by {
                    if s == sid && k == old_subsets[s]@.len() {
                        assert(subsets@[s]@[k] == index);
                    } else {
                        assert(subsets@[s]@[k] == old_subsets[s]@[k]);
                        assert(old_attrs[old_subsets[s]@[k] as int] == attributes@[old_subsets[s]@[k] as int]);
                    }
                }
                assert forall|k: int| 0 <= k < cols.len() implies column_info(#[trigger] attributes@[k], cols[k], ts, tables) by {
                    if k < old_attrs.len() {
                        assert(old_attrs[k] == attributes@[k]);
                        assert(old_cols[k] == cols[k]);
                    }
                }
                assert forall|k: int| 0 <= k < cols.len() implies ts.connected(#[trigger] cols[k].1, representatives@[attributes@[k].subset_id as int]@) by {
                    if k < old_attrs.len() {
                        assert(old_attrs[k] == attributes@[k]);
                        assert(old_cols[k] == cols[k]);
                    }
                }
                assert forall|k: int| 0 <= k < cols.len() implies 0 <= #[trigger] cols[k].0 <= t by {
                    if k < old_attrs.len() {
                        assert(old_cols[k] == cols[k]);
                    }
                }
                assert forall|k: int| 0 <= k < cols.len() implies position(ts.nodes(), #[trigger] cols[k].1) is Some by {
                    if k < old_attrs.len() {
                        assert(old_cols[k] == cols[k]);
                    }
                }
            }
            a = a + 1;
        }
        proof {
            assert(attrs.subrange(0, attrs.len() as int) =~= attrs);
            assert(table_columns(tables, t as int).subrange(0, attrs.len() as int) =~= table_columns(tables, t as int));
            assert(table_columns(next, t as int) =~= table_columns(tables, t as int));
            assert(cols == catalog_columns(next));
            assert(catalog_fault(ts, next) is None);
            assert forall|k: int| 0 <= k < cols.len() implies 0 <= #[trigger] cols[k].0 < t + 1 by {}
        }
        t = t + 1;
    }
    proof {
        assert(tables.subrange(0, tables.len() as int) =~= tables);
        assert forall|i: int, j: int|
            0 <= i < cols.len() && 0 <= j < cols.len() implies (attributes@[i].subset_id
                == attributes@[j].subset_id <==> ts.connected(#[trigger] cols[i].1, #[trigger] cols[j].1)) by {
            let si = attributes@[i].subset_id as int;
            let sj = attributes@[j].subset_id as int;
            let ri = representatives@[si]@;
            let rj = representatives@[sj]@;
            if si == sj {
                ts.lemma_connected_symmetric(cols[j].1, rj);
                ts.lemma_connected_transitive(cols[i].1, ri, cols[j].1);
            }
            if ts.connected(cols[i].1, cols[j].1) && si != sj {
                ts.lemma_connected_symmetric(cols[i].1, ri);
                ts.lemma_connected_transitive(ri, cols[i].1, cols[j].1);
                ts.lemma_connected_transitive(ri, cols[j].1, rj);
                if si < sj {
                    assert(!ts.connected(representatives@[si]@, representatives@[sj]@));
                } else {
                    ts.lemma_connected_symmetric(ri, rj);
                    assert(!ts.connected(representatives@[sj]@, representatives@[si]@));
                }
            }
        }
        lemma_views(representatives@);
    }
    let mut operators: Vec<String> = Vec::new();
    let all = Operator::all();
    let mut k: usize = 0;
    while k < all.len()
        invariant
            k <= all.len(),
            all@ == seq![
                Operator::EqualTo,
                Operator::GreaterThan,
                Operator::LessThan,
                Operator::GreaterThanOrEqualTo,
                Operator::LessThanOrEqualTo,
                Operator::NotEqualTo,
            ],
            views(operators@) == operator_names(all@.subrange(0, k as int)),
        decreases all.len() - k,
    {
        let ghost prev = operators@;
        let nm = all[k].name();
        let ghost nv = nm@;
        operators.push(nm);
        proof {
            crate::text::lemma_views(prev);
            crate::text::lemma_views(operators@);
            assert(views(operators@) =~= views(prev).push(nv));
            assert(all@.subrange(0, k + 1) =~= all@.subrange(0, k as int).push(all@[k as int]));
        }
        assert(views(operators@) =~= operator_names(all@.subrange(0, k + 1)));
        k = k + 1;
    }
    let mut logical_operators: Vec<String> = Vec::new();
    logical_operators.push(LogicalOperator::And.name());
    logical_operators.push(LogicalOperator::Or.name());
    proof {
        crate::text::lemma_views(operators@);
        crate::text::lemma_views(logical_operators@);
        assert(views(logical_operators@) =~= seq![logical_name(LogicalOperator::And), logical_name(LogicalOperator::Or)]);
        assert(all@.subrange(0, 6) =~= all@);
        assert(views(operators@) =~= seq![
            operator_name(Operator::EqualTo),
            operator_name(Operator::GreaterThan),
            operator_name(Operator::LessThan),
            operator_name(Operator::GreaterThanOrEqualTo),
            operator_name(Operator::LessThanOrEqualTo),
            operator_name(Operator::NotEqualTo),
        ]);
    }
    let r = Properties { attributes, subsets, operators, logical_operators };
    proof {
        assert(describes(r, *db_schema, *table_search));
    }
    Ok(r)
}

fn push_dot_name(s: &mut String, name: &String)
    ensures
        final(s)@ == old(s)@ + seq!['.'] + name@,
{
    let dot = String::from_str(".");
    proof {
        reveal_strlit(".");
    }
    s.append(dot.as_str());
    s.append(name.as_str());
    assert(final(s)@ =~= old(s)@ + seq!['.'] + name@);
}

} // verus!
