//! Connection settings of the storage backends.

use vstd::prelude::*;

use crate::text::{find_from, find_pattern, lemma_views, slice_chars, string_of, views, chars_of};

verus! {

/// The comma-separated items of `s`, empty items included.
pub open spec fn split_commas(s: Seq<char>) -> Seq<Seq<char>>
    decreases s.len(),
{
    match find_from(s, seq![','], 0) {
        Some(p) => if 0 <= p < s.len() {
            seq![s.subrange(0, p)] + split_commas(s.subrange(p + 1, s.len() as int))
        } else {
            seq![s]
        },
        None => seq![s],
    }
}

fn split_chars(s: &Vec<char>) -> (r: Vec<String>)
    ensures
        views(r@) == split_commas(s@),
    decreases s.len(),
{
    let comma = vec![','];
    assert(comma@ =~= seq![',']);
    match find_pattern(s, &comma, 0) {
        Some(p) => {
            let head = string_of(slice_chars(s, 0, p).as_slice());
            let rest = slice_chars(s, p + 1, s.len());
            let mut tail = split_chars(&rest);
            let ghost tv = tail@;
            let mut r: Vec<String> = Vec::new();
            r.push(head);
            let ghost hv = r@;
            r.append(&mut tail);
            proof {
                lemma_views(r@);
                lemma_views(tv);
                lemma_views(hv);
                assert(views(r@) =~= views(hv) + views(tv));
            }
            r
        },
        None => {
            let mut r: Vec<String> = Vec::new();
            r.push(string_of(s.as_slice()));
            proof {
                lemma_views(r@);
            }
            assert(views(r@) =~= seq![s@]);
            r
        },
    }
}

/// The comma-separated schema names of a list such as `"public,movies"`.
pub fn split_schemas(list: &String) -> (r: Vec<String>)
    ensures
        views(r@) == split_commas(list@),
{
    split_chars(&chars_of(list.as_str()))
}

/// How to reach a PostgreSQL database, and which schemas to expose.
pub struct PostgresConfig {
    pub host: String,
    pub port: u16,
    pub user: String,
    pub password: String,
    pub dbname: String,
    pub allowed_schemas: Vec<String>,
}

/// How to reach a MySQL database, and which schemas to expose.
pub struct MySQLConfig {
    pub host: String,
    pub port: u16,
    pub user: String,
    pub password: String,
    pub dbname: String,
    pub allowed_schemas: Vec<String>,
}

impl PostgresConfig {
    pub fn new(
        allowed_schemas_string: String,
        db_host: String,
        db_port: u16,
        postgres_user: String,
        postgres_pass: String,
        postgres_db: String,
    ) -> (r: Self)
        ensures
            views(r.allowed_schemas@) == split_commas(allowed_schemas_string@),
            r.host@ == db_host@,
            r.port == db_port,
            r.user@ == postgres_user@,
            r.password@ == postgres_pass@,
            r.dbname@ == postgres_db@,
    {
        PostgresConfig {
            host: db_host,
            port: db_port,
            user: postgres_user,
            password: postgres_pass,
            dbname: postgres_db,
            allowed_schemas: split_schemas(&allowed_schemas_string),
        }
    }
}

impl MySQLConfig {
    pub fn new(
        allowed_schemas_string: String,
        db_host: String,
        db_port: u16,
        mysql_user: String,
        mysql_pass: String,
        mysql_db: String,
    ) -> (r: Self)
        ensures
            views(r.allowed_schemas@) == split_commas(allowed_schemas_string@),
            r.host@ == db_host@,
            r.port == db_port,
            r.user@ == mysql_user@,
            r.password@ == mysql_pass@,
            r.dbname@ == mysql_db@,
    {
        MySQLConfig {
            host: db_host,
            port: db_port,
            user: mysql_user,
            password: mysql_pass,
            dbname: mysql_db,
            allowed_schemas: split_schemas(&allowed_schemas_string),
        }
    }
}

} // verus!
