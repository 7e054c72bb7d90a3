use vstd::prelude::*;

verus! {

/// A pair of 16-byte keys for one multi-map keyword: the first locates the
/// entries, the second decrypts them.
pub type KeyPair = ([u8; 16], [u8; 16]);

/// A selection predicate.
#[derive(Debug)]
pub enum BoolQuery {
    Eq(String, String),
    BadBool(String),
}

/// A select/project/join query as the query language writes it.
#[derive(Debug)]
pub enum SPJQuery {
    Select(BoolQuery, Box<SPJQuery>),
    Join(String, String, Box<SPJQuery>, Box<SPJQuery>),
    Project(Vec<String>, Box<SPJQuery>),
    Id(String),
    BadQuery(String),
}

/// A query plan whose joins each name a leakage profile: full-pair or
/// partial-pair.
#[derive(Debug)]
pub enum HybQuery {
    Select(BoolQuery, Box<HybQuery>),
    FPJoin(String, String, Box<HybQuery>, Box<HybQuery>),
    PPJoin(String, String, Box<HybQuery>, Box<HybQuery>),
    Project(Vec<String>, Box<HybQuery>),
    Id(String),
    BadQuery(String),
}

/// The search token of a query plan: the same shape, each predicate or
/// attribute replaced by the key pairs of its multi-map keyword, with what the
/// server needs to evaluate it (relation ids, row length, save columns, and
/// whether a join pair was annotated in the other order).
pub enum HybToken {
    Id(KeyPair, String, usize),
    Select(KeyPair, Box<HybToken>, String),
    Project(Vec<KeyPair>, Box<HybToken>),
    FPJoin(KeyPair, Box<HybToken>, Box<HybToken>, String, String, bool),
    PPJoin(KeyPair, KeyPair, Box<HybToken>, Box<HybToken>, String, String, usize, usize, bool),
    BadToken,
}

/// The query plan of a parsed query: every join becomes a full-pair join.
pub fn annotate_query(qry: SPJQuery) -> (r: HybQuery)
    ensures
        r == annotated(qry),
    decreases qry,
{
    match qry {
        SPJQuery::Select(bq, sub_query) => HybQuery::Select(bq, Box::new(annotate_query(*sub_query))),
        SPJQuery::Join(at1, at2, sub_query1, sub_query2) => HybQuery::FPJoin(
            at1,
            at2,
            Box::new(annotate_query(*sub_query1)),
            Box::new(annotate_query(*sub_query2)),
        ),
        SPJQuery::Project(cols, sub_query) => HybQuery::Project(cols, Box::new(annotate_query(*sub_query))),
        SPJQuery::Id(s) => HybQuery::Id(s),
        SPJQuery::BadQuery(s) => HybQuery::BadQuery(s),
    }
}

/// A parsed query with each join read as a full-pair join.
pub open spec fn annotated(qry: SPJQuery) -> HybQuery
    decreases qry,
{
    match qry {
        SPJQuery::Select(bq, sub_query) => HybQuery::Select(bq, Box::new(annotated(*sub_query))),
        SPJQuery::Join(at1, at2, s1, s2) => HybQuery::FPJoin(at1, at2, Box::new(annotated(*s1)), Box::new(annotated(*s2))),
        SPJQuery::Project(cols, sub_query) => HybQuery::Project(cols, Box::new(annotated(*sub_query))),
        SPJQuery::Id(s) => HybQuery::Id(s),
        SPJQuery::BadQuery(s) => HybQuery::BadQuery(s),
    }
}

} // verus!
