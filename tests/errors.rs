use spj_enc::bytemap::ByteMap;
use spj_enc::crypto_helper::{fixed_decrypt, fixed_encrypt, gen_key, pkcs7_strip, prf, CipherError, KeySeq};
use spj_enc::db_structs::{Relation, DB};
use spj_enc::emm::{EMMClient, EMMServer};
use spj_enc::encoding::encode_i32;
use spj_enc::eval::{chunk_refs, EvalError};
use spj_enc::fin::{join_remaining, FinishError};
use spj_enc::mm::MM;
use spj_enc::ste::{STEClient, STEServer, SearchError};
use spj_enc::sti::{STIClient, STIServer};
use spj_enc::token::{HybQuery, HybToken};

fn s(x: &str) -> String {
    x.to_string()
}

fn strings(xs: &[&str]) -> Vec<String> {
    xs.iter().map(|x| x.to_string()).collect()
}

#[test]
fn wrong_key_reports_bad_padding() {
    let c = fixed_encrypt(b"sixteen byte msg", &gen_key(1));
    assert_eq!(fixed_decrypt(&c, &gen_key(2)), Err(CipherError::InvalidPadding));
}

#[test]
fn oversized_padding_byte_is_rejected_without_panic() {
    let key = gen_key(1);
    // CBC decryption of the first block alone gives back the first 16 plaintext bytes
    let c = fixed_encrypt(&[0x20u8; 16], &key);
    assert_eq!(c.len(), 32);
    assert_eq!(fixed_decrypt(&c[..16], &key), Err(CipherError::InvalidPadding));
    let z = fixed_encrypt(&[0u8; 16], &key);
    assert_eq!(fixed_decrypt(&z[..16], &key), Err(CipherError::InvalidPadding));
    let ok = fixed_encrypt(&[0x10u8; 16], &key);
    assert_eq!(fixed_decrypt(&ok[..16], &key), Ok(Vec::new()));
    assert_eq!(fixed_decrypt(&[], &key), Err(CipherError::InvalidPadding));
}

#[test]
fn padding_strip_rules() {
    let mut block = vec![7u8; 16];
    block[15] = 3;
    block[14] = 3;
    block[13] = 3;
    assert_eq!(pkcs7_strip(block.clone()), Some(vec![7u8; 13]));
    block[13] = 2;
    assert_eq!(pkcs7_strip(block), None);
    assert_eq!(pkcs7_strip(vec![16u8; 16]), Some(Vec::new()));
    assert_eq!(pkcs7_strip(vec![17u8; 16]), None);
    assert_eq!(pkcs7_strip(vec![0u8; 16]), None);
    assert_eq!(pkcs7_strip(vec![1u8; 15]), None);
    assert_eq!(pkcs7_strip(Vec::new()), None);
}

#[test]
fn ciphertext_length_follows_padding() {
    let key = gen_key(2);
    // an empty plaintext pads to one whole block
    assert_eq!(fixed_encrypt(b"", &key).len(), 16);
    assert_eq!(fixed_decrypt(&fixed_encrypt(b"", &key), &key), Ok(Vec::new()));
    let long = vec![5u8; 10000];
    let c = fixed_encrypt(&long, &key);
    assert_eq!(c.len(), 10000 + 16);
    assert_eq!(fixed_decrypt(&c, &key), Ok(long));
    assert_eq!(fixed_decrypt(&c[..17], &key), Err(CipherError::InvalidLength));
    assert_eq!(fixed_encrypt(&[1u8; 15], &key).len(), 16);
    assert_eq!(fixed_encrypt(&[1u8; 16], &key).len(), 32);
    assert_eq!(fixed_decrypt(&fixed_encrypt(&[9u8; 100], &key), &key), Ok(vec![9u8; 100]));
}

#[test]
fn chunking_rejects_bad_rows() {
    assert_eq!(chunk_refs(vec![vec![0u8; 32]], 0).err(), Some(EvalError::Malformed));
    assert_eq!(chunk_refs(vec![vec![0u8; 32], vec![1u8; 32], vec![2u8; 32]], 2).err(), Some(EvalError::Malformed));
    assert_eq!(chunk_refs(vec![vec![0u8; 31], vec![1u8; 32]], 2).err(), Some(EvalError::Malformed));
    let rows = chunk_refs(vec![vec![0u8; 32], vec![1u8; 5], vec![2u8; 32], vec![3u8; 5]], 2).ok().unwrap();
    assert_eq!(rows.len(), 2);
    assert_eq!(rows[1].cells, vec![vec![2u8; 32], vec![3u8; 5]]);
    assert_eq!(rows[1].unique_keys, vec![[2u8; 32]]);
}

fn key_pair(client: &mut EMMClient, kw: &str) -> ([u8; 16], [u8; 16]) {
    client.tokenize_emm(&kw.as_bytes().to_vec())
}

#[test]
fn join_of_missing_tables_fails() {
    let mut client = EMMClient::new_emm_client();
    let _ = client.setup_emm(&MM::new_mm(), &mut KeySeq::new(0));
    let kp = key_pair(&mut client, "any");
    let server = STIServer::from_emm(EMMServer::new_emm_server());
    let tk = HybToken::FPJoin(
        kp,
        Box::new(HybToken::Id(kp, s("A"), 1)),
        Box::new(HybToken::Id(kp, s("B"), 1)),
        s("X"),
        s("B"),
        false,
    );
    assert_eq!(server.eval_sti(tk).err(), Some(EvalError::MissingTable));
}

#[test]
fn undecryptable_entry_fails_evaluation() {
    let mut client = EMMClient::new_emm_client();
    let _ = client.setup_emm(&MM::new_mm(), &mut KeySeq::new(0));
    let (k1, k2) = key_pair(&mut client, "kw");
    let mut data = ByteMap::new();
    data.insert(prf(&encode_i32(0), &k1).to_vec(), vec![7u8; 5]);
    let server = STIServer::from_emm(EMMServer::from_map(ByteMap::from_pairs(data.to_pairs())));
    let tk = HybToken::Id((k1, k2), s("R"), 1);
    assert_eq!(server.eval_sti(tk).err(), Some(EvalError::Cipher));
    let ste = STEServer::from_parts(STIServer::from_emm(EMMServer::from_map(data)), ByteMap::new());
    let tk = HybToken::Id((k1, k2), s("R"), 1);
    assert_eq!(ste.eval_ste(tk).err(), Some(SearchError::Eval(EvalError::Cipher)));
}

#[test]
fn pointer_without_cell_fails_search() {
    let mut rel = Relation::new_rel(strings(&["k", "v"]));
    assert!(rel.add_row(strings(&["1", "a"])));
    let mut db = DB::new_db();
    db.add_rel(&s("R"), rel);
    let mut client = STEClient::new_ste_client();
    let server = client.setup_ste(&db);
    let index = server.sti_server().emm_server().data().to_pairs();
    let bare = STEServer::from_parts(STIServer::from_emm(EMMServer::from_map(ByteMap::from_pairs(index))), ByteMap::new());
    let tk = client.tokenize_ste(HybQuery::Id(s("R"))).ok().unwrap();
    assert_eq!(bare.eval_ste(tk).err(), Some(SearchError::MissingCell));
}

#[test]
fn deferred_join_without_relation_fails() {
    let rel = Relation::new_rel(strings(&["a"]));
    let r = join_remaining(vec![rel], &vec![(s("a"), s("b"))]);
    assert_eq!(r.err(), Some(FinishError::MissingJoin));
    let rel = Relation::new_rel(strings(&["a", "b"]));
    let r = join_remaining(vec![rel], &vec![(s("a"), s("b"))]);
    assert_eq!(r.err(), Some(FinishError::MissingJoin));
}

#[test]
fn deferred_join_merges_two_relations() {
    let mut r1 = Relation::new_rel(strings(&["a", "x"]));
    assert!(r1.add_row(strings(&["1", "k"])));
    let mut r2 = Relation::new_rel(strings(&["b", "y"]));
    assert!(r2.add_row(strings(&["2", "k"])));
    assert!(r2.add_row(strings(&["3", "m"])));
    let rels = join_remaining(vec![r1, r2], &vec![(s("x"), s("y"))]).ok().unwrap();
    assert_eq!(rels.len(), 1);
    assert_eq!(rels[0].get_ats(), strings(&["a", "x", "b", "y"]));
    assert_eq!(rels[0].table, vec![strings(&["1", "k", "2", "k"])]);
}

#[test]
fn finishing_without_a_relation_fails() {
    let client = STIClient::new_sti_client();
    let r = client.fin_sti(&Some(HybQuery::Id(s("R"))), Vec::new());
    assert_eq!(r.err(), Some(FinishError::Unjoined));
}
