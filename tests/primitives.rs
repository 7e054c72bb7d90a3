use spj_enc::bytemap::ByteMap;
use spj_enc::crypto_helper::{fixed_decrypt, fixed_encrypt, gen_key, prf, CipherError, KeySeq};
use spj_enc::db_structs::{Relation, DB};
use spj_enc::emm::{EMMClient, EMMServer, EMM};
use spj_enc::encoding::{
    decode_string, decode_token_pair, encode_i32, encode_str2, encode_str3, encode_str3_i32, encode_string, encode_token_pair,
};
use spj_enc::eval_references::{RefRow, RefTable};
use spj_enc::mm::MM;

fn strings(xs: &[&str]) -> Vec<String> {
    xs.iter().map(|x| x.to_string()).collect()
}

fn bytes(x: &str) -> Vec<u8> {
    x.as_bytes().to_vec()
}

#[test]
fn prf_is_deterministic() {
    let key = gen_key(7);
    let a = prf(b"some input", &key);
    let b = prf(b"some input", &key);
    assert_eq!(a, b);
}

#[test]
fn prf_separates_inputs() {
    let key = gen_key(3);
    let mut seen = std::collections::HashSet::new();
    for i in 0..500u32 {
        let t = prf(&i.to_le_bytes(), &key);
        assert!(seen.insert(t), "two inputs gave one token");
    }
    // a different key gives a different token for the same input
    let other = gen_key(4);
    assert_ne!(prf(b"x", &key), prf(b"x", &other));
}

#[test]
fn prf_output_is_hex() {
    let t = prf(b"abc", &gen_key(0));
    assert!(t.iter().all(|c| c.is_ascii_hexdigit()));
}

#[test]
fn keys_follow_their_seed() {
    assert_eq!(gen_key(5), gen_key(5));
    assert_ne!(gen_key(5), gen_key(6));
    let mut ks = KeySeq::new(5);
    assert_eq!(ks.fresh_key(), gen_key(5));
    assert_eq!(ks.fresh_key(), gen_key(6));
    assert_eq!(ks.next, 7);
    let mut last = KeySeq::new(u64::MAX);
    let _ = last.fresh_key();
    assert_eq!(last.next, 0);
}

#[test]
fn cipher_round_trip() {
    let key = gen_key(1);
    let c = fixed_encrypt(b"hello world", &key);
    assert_ne!(c, b"hello world".to_vec());
    assert_eq!(c.len(), 16);
    assert_eq!(fixed_decrypt(&c, &key), Ok(b"hello world".to_vec()));
    // deterministic encryption
    assert_eq!(fixed_encrypt(b"hello world", &key), c);
}

#[test]
fn cipher_reports_bad_length() {
    let key = gen_key(1);
    assert_eq!(fixed_decrypt(&[1, 2, 3], &key), Err(CipherError::InvalidLength));
}

#[test]
fn encodings_are_bincode() {
    assert_eq!(encode_i32(2), vec![2, 0, 0, 0]);
    assert_eq!(encode_string("ab"), vec![2, 0, 0, 0, 0, 0, 0, 0, b'a', b'b']);
    assert_eq!(encode_str2("i", "R"), vec![1, 0, 0, 0, 0, 0, 0, 0, b'i', 1, 0, 0, 0, 0, 0, 0, 0, b'R']);
    assert_eq!(encode_str3("s", "a", "b"), [encode_string("s"), encode_string("a"), encode_string("b")].concat());
    assert_eq!(
        encode_str3_i32("ppj", "a", "b", 2),
        [encode_string("ppj"), encode_string("a"), encode_string("b"), vec![2, 0, 0, 0]].concat()
    );
    assert_eq!(decode_string(&encode_string("cell")), Some("cell".to_string()));
    assert_eq!(decode_string(&[9]), None);
    let a = [1u8; 32];
    let b = [2u8; 32];
    let pair = encode_token_pair(&a, &b);
    assert_eq!(pair.len(), 64);
    assert_eq!(decode_token_pair(&pair), Some((a, b)));
}

fn sample_mm() -> MM {
    let mut mm = MM::new_mm();
    mm.add_mm(bytes("v0"), bytes("k"));
    mm.add_mm(bytes("w0"), bytes("other"));
    mm.add_mm(bytes("v1"), bytes("k"));
    mm.add_mm(bytes("v2"), bytes("k"));
    mm
}

#[test]
fn mm_keeps_values_in_order() {
    let mm = sample_mm();
    assert_eq!(mm.data.len(), 2);
    assert_eq!(mm.data[0].0, bytes("k"));
    assert_eq!(mm.data[0].1, vec![bytes("v0"), bytes("v1"), bytes("v2")]);
    assert_eq!(mm.data[1].1, vec![bytes("w0")]);
}

#[test]
fn emm_round_trip() {
    let mm = sample_mm();
    let mut emm = EMM::new_emm();
    let mut keys = KeySeq::new(0);
    emm.setup_emm(&mm, &mut keys);
    assert_eq!(emm.search_emm_rr(&bytes("k")), Ok(vec![bytes("v0"), bytes("v1"), bytes("v2")]));
    assert_eq!(emm.search_emm_rh(&bytes("k")), Ok(vec![bytes("v0"), bytes("v1"), bytes("v2")]));
    assert_eq!(emm.search_emm_rr(&bytes("other")), Ok(vec![bytes("w0")]));
    assert_eq!(emm.search_emm_rr(&bytes("missing")), Ok(Vec::new()));
}

#[test]
fn emm_response_hiding_returns_ciphertexts() {
    let mm = sample_mm();
    let mut client = EMMClient::new_emm_client();
    let mut keys = KeySeq::new(9);
    let server = client.setup_emm(&mm, &mut keys);
    let (k1, k2) = client.tokenize_emm(&bytes("k"));
    let hidden = server.eval_emm_rh(&k1);
    assert_eq!(hidden.len(), 3);
    assert_eq!(hidden[0], fixed_encrypt(b"v0", &k2));
    assert_eq!(client.decrypt_emm(hidden), Ok(vec![bytes("v0"), bytes("v1"), bytes("v2")]));
    assert_eq!(server.eval_emm_rr(&k1, &k2), Ok(vec![bytes("v0"), bytes("v1"), bytes("v2")]));
}

#[test]
fn emm_scan_stops_at_gap() {
    let mut client = EMMClient::new_emm_client();
    let mut keys = KeySeq::new(2);
    let _ = client.setup_emm(&MM::new_mm(), &mut keys);
    let (k1, k2) = client.tokenize_emm(&bytes("k"));
    let mut data = ByteMap::new();
    for (c, v) in [(0, "v0"), (1, "v1"), (3, "v3"), (4, "v4")] {
        let token = prf(&encode_i32(c), &k1);
        data.insert(token.to_vec(), fixed_encrypt(v.as_bytes(), &k2));
    }
    let server = EMMServer::from_map(data);
    assert_eq!(server.eval_emm_rr(&k1, &k2), Ok(vec![bytes("v0"), bytes("v1")]));
    assert_eq!(server.eval_emm_rh(&k1).len(), 2);
}

#[test]
fn emm_gap_at_start_returns_nothing() {
    let mut client = EMMClient::new_emm_client();
    let mut keys = KeySeq::new(2);
    let _ = client.setup_emm(&MM::new_mm(), &mut keys);
    let (k1, k2) = client.tokenize_emm(&bytes("k"));
    let mut data = ByteMap::new();
    let token = prf(&encode_i32(1), &k1);
    data.insert(token.to_vec(), fixed_encrypt(b"v1", &k2));
    let server = EMMServer::from_map(data);
    assert_eq!(server.eval_emm_rr(&k1, &k2), Ok(Vec::new()));
}

#[test]
fn bytemap_keys_sharing_a_bucket() {
    let mut m = ByteMap::new();
    m.insert(bytes("abcdefgh-1"), bytes("one"));
    m.insert(bytes("abcdefgh-2"), bytes("two"));
    m.insert(bytes("xy"), bytes("short"));
    m.insert(bytes("zw"), bytes("other short"));
    m.insert(bytes("abcdefgh-1"), bytes("three"));
    assert_eq!(m.get(b"abcdefgh-1"), Some(&bytes("three")));
    assert_eq!(m.get(b"abcdefgh-2"), Some(&bytes("two")));
    assert_eq!(m.get(b"abcdefgh-3"), None);
    assert_eq!(m.get(b"xy"), Some(&bytes("short")));
    assert_eq!(m.get(b"zw"), Some(&bytes("other short")));
    assert_eq!(m.get(b"zz"), None);
    let copy = ByteMap::from_pairs(m.to_pairs());
    assert_eq!(copy.get(b"abcdefgh-1"), Some(&bytes("three")));
    assert_eq!(copy.num_entries(), 5);
}

#[test]
fn bytemap_later_insert_wins() {
    let mut m = ByteMap::new();
    m.insert(bytes("a"), bytes("1"));
    m.insert(bytes("b"), bytes("2"));
    m.insert(bytes("a"), bytes("3"));
    assert_eq!(m.get(b"a"), Some(&bytes("3")));
    assert_eq!(m.get(b"b"), Some(&bytes("2")));
    assert_eq!(m.get(b"c"), None);
    assert_eq!(m.num_entries(), 3);
}

fn tok(b: u8) -> [u8; 32] {
    [b; 32]
}

fn cell(b: u8) -> Vec<u8> {
    vec![b; 32]
}

#[test]
fn filter_rows_keeps_matching_rows() {
    let rows = vec![
        RefRow::from_uk(vec![cell(1), cell(2)], tok(1)),
        RefRow::from_uk(vec![cell(3), cell(4)], tok(3)),
        RefRow::from_uk(vec![cell(5), cell(6)], tok(5)),
    ];
    let mut t = RefTable::from_id(rows, "R".to_string());
    assert!(t.has_id(&"R".to_string()));
    assert!(!t.has_id(&"S".to_string()));
    t.filter_rows(&vec![cell(4), cell(5), cell(9)]);
    assert_eq!(t.refs.len(), 2);
    assert_eq!(t.refs[0].cells, vec![cell(3), cell(4)]);
    assert_eq!(t.refs[1].cells, vec![cell(5), cell(6)]);
}

#[test]
fn filter_refs_keeps_save_columns() {
    let rows = vec![
        RefRow::from_uk(vec![cell(1), cell(2), cell(3)], tok(1)),
        RefRow::from_uk(vec![cell(4), cell(5), cell(6)], tok(4)),
    ];
    let mut t = RefTable::from_id(rows, "R".to_string());
    t.add_save_col(2);
    // column 0 is always saved; column 2 now too; column 1 only where matched
    t.filter_refs(&vec![cell(5)]);
    assert_eq!(t.refs[0].cells, vec![cell(1), cell(3)]);
    assert_eq!(t.refs[1].cells, vec![cell(4), cell(5), cell(6)]);
}

#[test]
fn concat_table_joins_matched_pairs() {
    let left = RefTable::from_id(
        vec![
            RefRow::from_uk(vec![cell(1), cell(2)], tok(1)),
            RefRow::from_uk(vec![cell(3), cell(4)], tok(3)),
        ],
        "L".to_string(),
    );
    let right = RefTable::from_id(
        vec![
            RefRow::from_uk(vec![cell(7)], tok(7)),
            RefRow::from_uk(vec![cell(8)], tok(8)),
        ],
        "R".to_string(),
    );
    let matches = vec![(tok(1), tok(8)), (tok(3), tok(7)), (tok(3), tok(8)), (tok(9), tok(7))];
    let joined = left.concat_table(&right, &matches);
    assert_eq!(joined.refs.len(), 3);
    assert_eq!(joined.refs[0].cells, vec![cell(1), cell(2), cell(8)]);
    assert_eq!(joined.refs[1].cells, vec![cell(3), cell(4), cell(7)]);
    assert_eq!(joined.refs[2].cells, vec![cell(3), cell(4), cell(8)]);
    assert!(joined.has_id(&"L".to_string()) && joined.has_id(&"R".to_string()));
    let mut keys = joined.refs[0].unique_keys.clone();
    keys.sort();
    assert_eq!(keys, vec![tok(1), tok(8)]);
    // the right table's key column moves past the left table's two columns
    let mut cols = joined.save_cols.clone();
    cols.sort();
    cols.dedup();
    assert_eq!(cols, vec![0, 2]);
}

#[test]
fn concat_table_with_no_matches_is_empty() {
    let left = RefTable::from_id(vec![RefRow::from_uk(vec![cell(1)], tok(1))], "L".to_string());
    let right = RefTable::from_id(vec![RefRow::from_uk(vec![cell(2)], tok(2))], "R".to_string());
    assert!(left.concat_table(&right, &Vec::new()).refs.is_empty());
}

#[test]
fn relation_join_and_projection() {
    let mut r1 = Relation::new_rel(strings(&["a", "b"]));
    assert!(r1.add_row(strings(&["1", "x"])));
    assert!(r1.add_row(strings(&["2", "y"])));
    assert!(!r1.add_row(strings(&["3"])));
    let mut r2 = Relation::new_rel(strings(&["c", "d"]));
    assert!(r2.add_row(strings(&["x", "p"])));
    assert!(r2.add_row(strings(&["x", "q"])));
    let mut j = r1.join(&r2, &"b".to_string(), &"c".to_string());
    assert_eq!(j.get_ats(), strings(&["a", "b", "c", "d"]));
    assert_eq!(j.table, vec![strings(&["1", "x", "x", "p"]), strings(&["1", "x", "x", "q"])]);
    let none = r1.join(&r2, &"b".to_string(), &"zz".to_string());
    assert!(none.table.is_empty());
    assert_eq!(none.get_ats().len(), 4);
    j.projection(&strings(&["d", "a"]));
    assert_eq!(j.get_ats(), strings(&["a", "d"]));
    assert_eq!(j.table, vec![strings(&["1", "p"]), strings(&["1", "q"])]);
}

#[test]
fn relation_set_ats_and_empty() {
    let mut r = Relation::empty_rel();
    assert!(r.get_ats().is_empty());
    r.set_ats(strings(&["x"]));
    assert_eq!(r.get_ats(), strings(&["x"]));
}

#[test]
fn db_lookups() {
    let mut db = DB::new_db();
    db.add_rel(&"R".to_string(), Relation::new_rel(strings(&["r1", "r2"])));
    db.add_rel(&"S".to_string(), Relation::new_rel(strings(&["s1"])));
    db.add_rel(&"R".to_string(), Relation::new_rel(strings(&["r1", "r3"])));
    assert_eq!(db.ids(), strings(&["R", "S"]));
    assert_eq!(db.get_rels().len(), 2);
    assert_eq!(db.get_rel(&"R".to_string()).unwrap().get_ats(), strings(&["r1", "r3"]));
    assert!(db.get_rel(&"T".to_string()).is_none());
    assert_eq!(db.get_id_from_at(&"s1".to_string()), Some("S".to_string()));
    assert_eq!(db.get_id_from_at(&"r2".to_string()), None);
    assert_eq!(db.get_all_ats(), strings(&["r1", "r3", "s1"]));
    let schema = db.get_schema();
    assert_eq!(schema[1], ("S".to_string(), strings(&["s1"])));
    db.add_annotation(&"r1".to_string(), &"s1".to_string());
    db.add_annotation(&"r1".to_string(), &"s1".to_string());
    assert_eq!(db.annotations.len(), 1);
    if let Some(rel) = db.get_rel_mut(&"S".to_string()) {
        assert!(rel.add_row(strings(&["v"])));
    }
    assert_eq!(db.get_rel(&"S".to_string()).unwrap().table.len(), 1);
}
