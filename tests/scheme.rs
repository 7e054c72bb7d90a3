use spj_enc::crypto_helper::KeySeq;
use spj_enc::db_structs::{Relation, DB};
use spj_enc::fin::FinishError;
use spj_enc::ste::{STEClient, STEServer};
use spj_enc::sti::TokenError;
use spj_enc::token::{BoolQuery, HybQuery, SPJQuery, annotate_query};

fn s(x: &str) -> String {
    x.to_string()
}

fn strings(xs: &[&str]) -> Vec<String> {
    xs.iter().map(|x| x.to_string()).collect()
}

fn employees() -> Relation {
    let mut rel = Relation::new_rel(strings(&["eid", "ename", "dept"]));
    assert!(rel.add_row(strings(&["1", "A", "X"])));
    assert!(rel.add_row(strings(&["2", "B", "Y"])));
    assert!(rel.add_row(strings(&["3", "C", "X"])));
    rel
}

fn depts() -> Relation {
    let mut rel = Relation::new_rel(strings(&["did", "dname"]));
    assert!(rel.add_row(strings(&["X", "Sales"])));
    assert!(rel.add_row(strings(&["Y", "Ops"])));
    assert!(rel.add_row(strings(&["Z", "Legal"])));
    rel
}

fn company_db() -> DB {
    let mut db = DB::new_db();
    db.add_rel(&s("Employees"), employees());
    db.add_rel(&s("Depts"), depts());
    db.add_annotation(&s("dept"), &s("did"));
    db
}

fn search(client: &mut STEClient, server: &STEServer, qry: HybQuery) -> Relation {
    let tk = client.tokenize_ste(qry).ok().expect("tokenizes");
    let cts = server.eval_ste(tk).ok().expect("evaluates");
    client.decrypt_ste(cts).ok().expect("decrypts")
}

fn sorted_rows(rel: &Relation) -> Vec<Vec<String>> {
    let mut rows = rel.table.clone();
    rows.sort();
    rows
}

fn id(name: &str) -> Box<HybQuery> {
    Box::new(HybQuery::Id(s(name)))
}

#[test]
fn selection_returns_matching_rows() {
    let db = company_db();
    let mut client = STEClient::new_ste_client();
    let server = client.setup_ste(&db);
    let qry = HybQuery::Select(BoolQuery::Eq(s("dept"), s("X")), id("Employees"));
    let rel = search(&mut client, &server, qry);
    assert_eq!(rel.get_ats(), strings(&["eid", "ename", "dept"]));
    assert_eq!(sorted_rows(&rel), vec![strings(&["1", "A", "X"]), strings(&["3", "C", "X"])]);
}

#[test]
fn id_query_returns_whole_relation() {
    let db = company_db();
    let mut client = STEClient::new_ste_client();
    let server = client.setup_ste(&db);
    let rel = search(&mut client, &server, HybQuery::Id(s("Depts")));
    assert_eq!(sorted_rows(&rel), vec![strings(&["X", "Sales"]), strings(&["Y", "Ops"]), strings(&["Z", "Legal"])]);
}

#[test]
fn full_pair_join_is_exact() {
    // two employees in X match one department X; one employee in Y matches Y
    let db = company_db();
    let mut client = STEClient::new_ste_client();
    let server = client.setup_ste(&db);
    let qry = HybQuery::FPJoin(s("dept"), s("did"), id("Employees"), id("Depts"));
    let rel = search(&mut client, &server, qry);
    assert_eq!(rel.get_ats(), strings(&["eid", "ename", "dept", "did", "dname"]));
    assert_eq!(
        sorted_rows(&rel),
        vec![
            strings(&["1", "A", "X", "X", "Sales"]),
            strings(&["2", "B", "Y", "Y", "Ops"]),
            strings(&["3", "C", "X", "X", "Sales"]),
        ]
    );
}

#[test]
fn full_pair_join_many_to_many() {
    let mut left = Relation::new_rel(strings(&["lid", "lk"]));
    for (i, k) in [("1", "a"), ("2", "a"), ("3", "b")] {
        assert!(left.add_row(strings(&[i, k])));
    }
    let mut right = Relation::new_rel(strings(&["rid", "rk"]));
    for (i, k) in [("10", "a"), ("11", "a"), ("12", "a"), ("13", "c")] {
        assert!(right.add_row(strings(&[i, k])));
    }
    let mut db = DB::new_db();
    db.add_rel(&s("L"), left);
    db.add_rel(&s("R"), right);
    db.add_annotation(&s("lk"), &s("rk"));
    let mut client = STEClient::new_ste_client();
    let server = client.setup_ste(&db);
    let rel = search(&mut client, &server, HybQuery::FPJoin(s("lk"), s("rk"), id("L"), id("R")));
    // 2 left rows with "a" times 3 right rows with "a"
    assert_eq!(rel.table.len(), 6);
    let mut expected = Vec::new();
    for l in ["1", "2"] {
        for r in ["10", "11", "12"] {
            expected.push(strings(&[l, "a", r, "a"]));
        }
    }
    expected.sort();
    assert_eq!(sorted_rows(&rel), expected);
}

#[test]
fn partial_pair_join_matches_full_pair_join() {
    let db = company_db();
    let mut client = STEClient::new_ste_client();
    let server = client.setup_ste(&db);
    let fp = search(&mut client, &server, HybQuery::FPJoin(s("dept"), s("did"), id("Employees"), id("Depts")));
    let pp = search(&mut client, &server, HybQuery::PPJoin(s("dept"), s("did"), id("Employees"), id("Depts")));
    assert_eq!(pp.get_ats(), fp.get_ats());
    assert_eq!(sorted_rows(&pp), sorted_rows(&fp));
    assert_eq!(pp.table.len(), 3);
}

#[test]
fn join_annotated_in_other_order() {
    let db = company_db();
    let mut client = STEClient::new_ste_client();
    let server = client.setup_ste(&db);
    let fp = search(&mut client, &server, HybQuery::FPJoin(s("did"), s("dept"), id("Depts"), id("Employees")));
    assert_eq!(fp.get_ats(), strings(&["did", "dname", "eid", "ename", "dept"]));
    assert_eq!(fp.table.len(), 3);
    let pp = search(&mut client, &server, HybQuery::PPJoin(s("did"), s("dept"), id("Depts"), id("Employees")));
    assert_eq!(sorted_rows(&pp), sorted_rows(&fp));
}

#[test]
fn projection_keeps_join_attribute_for_later_join() {
    let db = company_db();
    let mut client = STEClient::new_ste_client();
    let server = client.setup_ste(&db);
    let qry = HybQuery::Project(
        strings(&["ename", "dname"]),
        Box::new(HybQuery::PPJoin(s("dept"), s("did"), id("Employees"), id("Depts"))),
    );
    let rel = search(&mut client, &server, qry);
    assert_eq!(rel.get_ats(), strings(&["ename", "dname"]));
    assert_eq!(
        sorted_rows(&rel),
        vec![strings(&["A", "Sales"]), strings(&["B", "Ops"]), strings(&["C", "Sales"])]
    );
}

#[test]
fn projection_inside_a_join_keeps_join_attribute() {
    let db = company_db();
    let mut client = STEClient::new_ste_client();
    let server = client.setup_ste(&db);
    let expected = vec![strings(&["A", "X", "Sales"]), strings(&["B", "Y", "Ops"]), strings(&["C", "X", "Sales"])];
    let inner = || Box::new(HybQuery::Project(strings(&["ename"]), id("Employees")));
    let pp = search(&mut client, &server, HybQuery::PPJoin(s("dept"), s("did"), inner(), id("Depts")));
    assert_eq!(pp.get_ats(), strings(&["ename", "did", "dname"]));
    assert_eq!(sorted_rows(&pp), expected);
    let fp = search(&mut client, &server, HybQuery::FPJoin(s("dept"), s("did"), inner(), id("Depts")));
    assert_eq!(fp.get_ats(), strings(&["ename", "did", "dname"]));
    assert_eq!(sorted_rows(&fp), expected);
}

#[test]
fn join_sides_must_hold_their_attributes() {
    let db = company_db();
    let mut client = STEClient::new_ste_client();
    let _server = client.setup_ste(&db);
    let both_employees = HybQuery::FPJoin(s("dept"), s("did"), id("Employees"), id("Employees"));
    assert_eq!(client.tokenize_ste(both_employees).err(), Some(TokenError::SelfJoin(s("dept"))));
    let swapped_sides = HybQuery::PPJoin(s("dept"), s("did"), id("Depts"), id("Employees"));
    assert_eq!(client.tokenize_ste(swapped_sides).err(), Some(TokenError::WrongSide(s("dept"))));
}

#[test]
fn projection_of_a_relation() {
    let db = company_db();
    let mut client = STEClient::new_ste_client();
    let server = client.setup_ste(&db);
    let qry = HybQuery::Project(strings(&["ename"]), id("Employees"));
    let rel = search(&mut client, &server, qry);
    assert_eq!(rel.get_ats(), strings(&["ename"]));
    assert_eq!(sorted_rows(&rel), vec![strings(&["A"]), strings(&["B"]), strings(&["C"])]);
}

#[test]
fn unannotated_join_is_refused() {
    let db = company_db();
    let mut client = STEClient::new_ste_client();
    let _server = client.setup_ste(&db);
    let qry = HybQuery::FPJoin(s("ename"), s("dname"), id("Employees"), id("Depts"));
    assert_eq!(client.tokenize_ste(qry).err(), Some(TokenError::NotAnnotated(s("ename"), s("dname"))));
    let qry = HybQuery::PPJoin(s("ename"), s("dname"), id("Employees"), id("Depts"));
    assert_eq!(client.tokenize_ste(qry).err(), Some(TokenError::NotAnnotated(s("ename"), s("dname"))));
}

#[test]
fn tokenize_errors() {
    let db = company_db();
    let mut client = STEClient::new_ste_client();
    let _server = client.setup_ste(&db);
    assert_eq!(client.tokenize_ste(HybQuery::Id(s("Nope"))).err(), Some(TokenError::UnknownRelation(s("Nope"))));
    let sel = HybQuery::Select(BoolQuery::Eq(s("salary"), s("1")), id("Employees"));
    assert_eq!(client.tokenize_ste(sel).err(), Some(TokenError::UnknownAttribute(s("salary"))));
    let join = HybQuery::FPJoin(s("dept"), s("floor"), id("Employees"), id("Depts"));
    assert_eq!(client.tokenize_ste(join).err(), Some(TokenError::UnknownJoinAttribute(s("floor"))));
    let bad = HybQuery::BadQuery(s("Malformed query"));
    assert_eq!(client.tokenize_ste(bad).err(), Some(TokenError::BadQuery(s("Malformed query"))));
    let nested = HybQuery::Project(strings(&["eid"]), Box::new(HybQuery::BadQuery(s("Empty query"))));
    assert_eq!(client.tokenize_ste(nested).err(), Some(TokenError::BadQuery(s("Empty query"))));
    let badbool = HybQuery::Select(BoolQuery::BadBool(s("no value")), id("Employees"));
    assert_eq!(client.tokenize_ste(badbool).err(), Some(TokenError::BadQuery(s("no value"))));
}

#[test]
fn self_join_is_refused() {
    let mut db = company_db();
    db.add_annotation(&s("eid"), &s("dept"));
    let mut client = STEClient::new_ste_client();
    let _server = client.setup_ste(&db);
    let qry = HybQuery::FPJoin(s("eid"), s("dept"), id("Employees"), id("Employees"));
    assert_eq!(client.tokenize_ste(qry).err(), Some(TokenError::SelfJoin(s("eid"))));
}

#[test]
fn decrypt_rejects_garbage() {
    let db = company_db();
    let mut client = STEClient::new_ste_client();
    let server = client.setup_ste(&db);
    let tk = client.tokenize_ste(HybQuery::Id(s("Depts"))).ok().unwrap();
    let mut cts = server.eval_ste(tk).ok().unwrap();
    cts[0][0] = vec![1, 2, 3];
    assert_eq!(client.decrypt_ste(cts).err(), Some(FinishError::BadCell));
}

#[test]
fn decrypt_rejects_wrong_table_count() {
    let db = company_db();
    let mut client = STEClient::new_ste_client();
    let server = client.setup_ste(&db);
    let tk = client.tokenize_ste(HybQuery::Id(s("Depts"))).ok().unwrap();
    let mut cts = server.eval_ste(tk).ok().unwrap();
    let extra = cts[0].clone();
    cts.push(extra);
    assert_eq!(client.decrypt_ste(cts).err(), Some(FinishError::RowLength));
}

#[test]
fn decrypt_without_query_is_empty() {
    let db = company_db();
    let mut client = STEClient::new_ste_client();
    let _server = client.setup_ste(&db);
    let rel = client.decrypt_ste(Vec::new()).ok().unwrap();
    assert!(rel.table.is_empty());
    assert!(rel.get_ats().is_empty());
}

#[test]
fn new_server_has_no_data() {
    let server = STEServer::new_ste_server();
    let db = company_db();
    let mut client = STEClient::new_ste_client();
    let _ = client.setup_ste(&db);
    let tk = client.tokenize_ste(HybQuery::Id(s("Depts"))).ok().unwrap();
    let cts = server.eval_ste(tk).ok().unwrap();
    // an empty store finds no rows
    assert_eq!(cts, vec![Vec::<Vec<u8>>::new()]);
}

#[test]
fn annotate_query_makes_full_pair_joins() {
    let q = SPJQuery::Join(
        s("dept"),
        s("did"),
        Box::new(SPJQuery::Id(s("Employees"))),
        Box::new(SPJQuery::Select(BoolQuery::Eq(s("dname"), s("Ops")), Box::new(SPJQuery::Id(s("Depts"))))),
    );
    let db = company_db();
    let mut client = STEClient::new_ste_client();
    let server = client.setup_ste(&db);
    let rel = search(&mut client, &server, annotate_query(q));
    assert_eq!(sorted_rows(&rel), vec![strings(&["2", "B", "Y", "Y", "Ops"])]);
}

#[test]
fn setups_are_reproducible() {
    let db = company_db();
    let mut c1 = STEClient::new_ste_client();
    let mut c2 = STEClient::new_ste_client();
    let s1 = c1.setup_ste(&db);
    let s2 = c2.setup_ste(&db);
    let t1 = c1.tokenize_ste(HybQuery::Id(s("Employees"))).ok().unwrap();
    let t2 = c2.tokenize_ste(HybQuery::Id(s("Employees"))).ok().unwrap();
    assert_eq!(s1.eval_ste(t1).ok().unwrap(), s2.eval_ste(t2).ok().unwrap());
    let _ = KeySeq::new(0);
}
