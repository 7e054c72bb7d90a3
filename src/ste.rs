use vstd::prelude::*;
use crate::bytemap::{ByteMap, map_of, bytes_to_vec};
use crate::crypto_helper::{KeySeq, prf, fixed_encrypt, fixed_decrypt, aes_cbc_encrypt_of, aes_cbc_decrypt_of, chacha20_key_of};
use crate::db_structs::{DB, Relation, strs_view};
use crate::emm::bytes_view;
use crate::encoding::{encode_str3, encode_string, bincode_string_of};
use crate::eval::EvalError;
use crate::eval_references::RowView;
use crate::fin::{FinishError, rel_view};
use crate::index::{cell_token, db_ready, mm_after, index_adds};
use crate::emm::setup_entries;
use crate::sti::{STIClient, STIServer, TokenError, eval_spec, finish_spec, tokenize_error, token_of, plaintexts_view};
use crate::token::{HybQuery, HybToken};

verus! {

/// The cell-store entries of one row: each cell's value, encoded and
/// encrypted under the cell key, stored at the cell's label token.
pub open spec fn row_store(ek: Seq<u8>, lk: Seq<u8>, id: Seq<char>, ats: Seq<Seq<char>>, row: Seq<Seq<char>>) -> Seq<(Seq<u8>, Seq<u8>)>
    decreases ats.len(),
{
    if ats.len() == 0 {
        Seq::empty()
    } else {
        let i = ats.len() - 1;
        row_store(ek, lk, id, ats.drop_last(), row)
            + seq![(cell_token(lk, id, ats[i], row[0]), aes_cbc_encrypt_of(ek, bincode_string_of(row[i])))]
    }
}

pub open spec fn rel_store(ek: Seq<u8>, lk: Seq<u8>, id: Seq<char>, ats: Seq<Seq<char>>, rows: Seq<Seq<Seq<char>>>) -> Seq<(Seq<u8>, Seq<u8>)>
    decreases rows.len(),
{
    if rows.len() == 0 {
        Seq::empty()
    } else {
        rel_store(ek, lk, id, ats, rows.drop_last()) + row_store(ek, lk, id, ats, rows.last())
    }
}

/// The cell-store entries of every relation, in order.
pub open spec fn db_store(ek: Seq<u8>, lk: Seq<u8>, rels: Seq<(Seq<char>, Relation)>) -> Seq<(Seq<u8>, Seq<u8>)>
    decreases rels.len(),
{
    if rels.len() == 0 {
        Seq::empty()
    } else {
        db_store(ek, lk, rels.drop_last()) + rel_store(ek, lk, rels.last().0, rels.last().1.ats_view(), rels.last().1.rows())
    }
}

/// The cell pointers of a table, row after row.
pub open spec fn table_cells(rows: Seq<RowView>) -> Seq<Seq<u8>>
    decreases rows.len(),
{
    if rows.len() == 0 {
        Seq::empty()
    } else {
        table_cells(rows.drop_last()) + rows.last().0
    }
}

/// The stored ciphertexts of `cells`, if every one is stored.
pub open spec fn resolve(store: Map<Seq<u8>, Seq<u8>>, cells: Seq<Seq<u8>>) -> Option<Seq<Seq<u8>>> {
    if forall|j: int| 0 <= j < cells.len() ==> store.contains_key(#[trigger] cells[j]) {
        Some(cells.map_values(|c: Seq<u8>| store[c]))
    } else {
        None
    }
}

/// The decryptions of every ciphertext of every table, if all decrypt.
pub open spec fn decrypt_tables(ek: Seq<u8>, cs: Seq<Seq<Seq<u8>>>) -> Option<Seq<Seq<Seq<u8>>>> {
    if forall|i: int, j: int| 0 <= i < cs.len() && 0 <= j < cs[i].len() ==> (#[trigger] aes_cbc_decrypt_of(ek, cs[i][j])) is Some {
        Some(cs.map_values(|t: Seq<Seq<u8>>| t.map_values(|c: Seq<u8>| aes_cbc_decrypt_of(ek, c)->Some_0)))
    } else {
        None
    }
}

/// Why a search failed on the server.
#[derive(Debug, PartialEq, Eq, Structural)]
pub enum SearchError {
    /// Evaluating the token failed.
    Eval(EvalError),
    /// A pointer named no stored cell.
    MissingCell,
}

/// The client of the whole scheme: the cell key, the index client, the key
/// source, and the query whose results are awaited.
pub struct STEClient {
    enc_key: [u8; 16],
    sti_client: STIClient,
    last_query: Option<HybQuery>,
    keys: KeySeq,
}

impl STEClient {
    pub closed spec fn enc_key(&self) -> Seq<u8> {
        self.enc_key@
    }

    pub closed spec fn sti(&self) -> STIClient {
        self.sti_client
    }

    pub closed spec fn last_query(&self) -> Option<HybQuery> {
        self.last_query
    }

    pub closed spec fn next_seed(&self) -> u64 {
        self.keys.next
    }

    /// A client whose keys will be drawn from seeds 0, 1, 2, ...
    pub fn new_ste_client() -> (r: STEClient)
        ensures
            r.last_query() is None,
            r.next_seed() == 0,
            r.sti().schema_view().len() == 0,
    {
        STEClient {
            enc_key: [0u8; 16],
            sti_client: STIClient::new_sti_client(),
            last_query: None,
            keys: KeySeq::new(0),
        }
    }

    /// Encrypts `db`: draws the cell key, the label key and the multi-map
    /// key; stores each cell's encrypted value at its label token; builds
    /// the index.
    pub fn setup_ste(&mut self, db: &DB) -> (r: STEServer)
        requires
            db_ready(db),
        ensures
            final(self).enc_key() == chacha20_key_of(old(self).next_seed()),
            r.store().entries() == db_store(final(self).enc_key(), label_key_of(old(self).next_seed()), db.entries()),
            final(self).sti().schema_view() == crate::sti::db_schema(db.entries()),
            final(self).sti().ann_view() == db.annotation_set(),
            final(self).sti().key() == chacha20_key_of(index_seed_of(old(self).next_seed())),
            exists|e: Seq<(Seq<u8>, Seq<Seq<u8>>)>| map_of(e) == mm_after(index_adds(label_key_of(old(self).next_seed()), db.entries(), db.annotation_seq()))
                && #[trigger] r.sti().emm().entries() == setup_entries(final(self).sti().key(), e),
            final(self).last_query() == old(self).last_query(),
    {
        let enc_key = self.keys.fresh_key();
        let label_key = self.keys.fresh_key();
        let ghost ek = enc_key@;
        let ghost lk = label_key@;
        let ghost ents = db.entries();
        let rels = db.get_rels();
        assert(rels@.map_values(|e: (String, Relation)| crate::db_structs::rel_entry_view(e)) == ents);
        let mut data = ByteMap::new();
        assert(db_store(ek, lk, ents.take(0)) =~= Seq::<(Seq<u8>, Seq<u8>)>::empty());
        let mut ri: usize = 0;
        while ri < rels.len()
            invariant
                ri <= rels@.len(),
                rels@.len() == ents.len(),
                forall|j: int| 0 <= j < rels@.len() ==> rels@[j].0@ == (#[trigger] ents[j]).0 && rels@[j].1 == ents[j].1,
                db_ready(db),
                ents == db.entries(),
                ek == enc_key@,
                lk == label_key@,
                data.entries() == db_store(ek, lk, ents.take(ri as int)),
            decreases rels@.len() - ri,
        {
            let id = &rels[ri].0;
            let rel = &rels[ri].1;
            assert(ents[ri as int].1.wf() && ents[ri as int].1.ats_view().len() > 0);
            let ats = rel.get_ats();
            let ghost base = data.entries();
            let ghost av = rel.ats_view();
            let ghost rows = rel.rows();
            let mut r: usize = 0;
            while r < rel.num_rows()
                invariant
                    r <= rows.len(),
                    rows == rel.rows(),
                    av == rel.ats_view(),
                    strs_view(ats@) == av,
                    av.len() > 0,
                    rel.wf(),
                    ek == enc_key@,
                    lk == label_key@,
                    data.entries() == base + rel_store(ek, lk, id@, av, rows.take(r as int)),
                decreases rows.len() - r,
            {
                let row = rel.row(r);
                let ghost mid = data.entries();
                let mut a: usize = 0;
                while a < ats.len()
                    invariant
                        a <= ats@.len(),
                        strs_view(ats@) == av,
                        row@.len() == av.len(),
                        av.len() > 0,
                        ek == enc_key@,
                        lk == label_key@,
                        data.entries() == mid + row_store(ek, lk, id@, av.take(a as int), strs_view(row@)),
                    decreases ats@.len() - a,
                {
                    let label = encode_str3(id.as_str(), ats[a].as_str(), row[0].as_str());
                    let tk = prf(label.as_slice(), label_key.as_slice());
                    let cell = encode_string(row[a].as_str());
                    let enc_cell = fixed_encrypt(cell.as_slice(), enc_key.as_slice());
                    data.insert(bytes_to_vec(tk.as_slice()), enc_cell);
                    proof {
                        let t = av.take(a as int + 1);
                        assert(t.drop_last() =~= av.take(a as int));
                        assert(data.entries() =~= mid + row_store(ek, lk, id@, t, strs_view(row@)));
                    }
                    a += 1;
                }
                proof {
                    assert(av.take(a as int) =~= av);
                    assert(rows.take(r as int + 1).drop_last() =~= rows.take(r as int));
                    assert(rows.take(r as int + 1).last() == strs_view(row@));
                    assert(data.entries() =~= base + rel_store(ek, lk, id@, av, rows.take(r as int + 1)));
                }
                r += 1;
            }
            proof {
                assert(rows.take(r as int) =~= rows);
                assert(ents.take(ri as int + 1).drop_last() =~= ents.take(ri as int));
                assert(ents.take(ri as int + 1).last() == ents[ri as int]);
                assert(data.entries() =~= db_store(ek, lk, ents.take(ri as int + 1)));
            }
            ri += 1;
        }
        assert(ents.take(ri as int) =~= ents);
        let sti_server = self.sti_client.setup_sti(db, &label_key, &mut self.keys);
        self.enc_key = enc_key;
        STEServer { sti_server, data }
    }

    /// Tokenizes `qry` and, on success, keeps it for the decrypt phase. A
    /// malformed query fails with its reason.
    pub fn tokenize_ste(&mut self, qry: HybQuery) -> (r: Result<HybToken, TokenError>)
        ensures
            final(self).enc_key() == old(self).enc_key(),
            final(self).sti().schema_view() == old(self).sti().schema_view(),
            final(self).sti().ann_view() == old(self).sti().ann_view(),
            final(self).sti().key() == old(self).sti().key(),
            r is Err <==> tokenize_error(old(self).sti().schema_view(), old(self).sti().ann_view(), qry) is Some,
            r is Err ==> r->Err_0 == tokenize_error(old(self).sti().schema_view(), old(self).sti().ann_view(), qry)->Some_0,
            r is Ok ==> token_of(old(self).sti().key(), old(self).sti().schema_view(), old(self).sti().ann_view(), Seq::empty(), qry, r->Ok_0),
            r is Ok ==> final(self).last_query() == Some(qry),
            r is Err ==> final(self).last_query() == old(self).last_query(),
    {
        if let HybQuery::BadQuery(s) = qry {
            return Err(TokenError::BadQuery(s));
        }
        match self.sti_client.tokenize_sti(&qry) {
            Ok(tk) => {
                self.last_query = Some(qry);
                Ok(tk)
            },
            Err(e) => Err(e),
        }
    }

    /// Decrypts the server's answer and puts it back together as one
    /// relation, following the last tokenized query.
    pub fn decrypt_ste(&mut self, ciphertexts: Vec<Vec<Vec<u8>>>) -> (r: Result<Relation, FinishError>)
        ensures
            *final(self) == *old(self),
            decrypt_tables(old(self).enc_key(), plaintexts_view(ciphertexts@)) is None ==> r == Err::<Relation, FinishError>(FinishError::BadCell),
            decrypt_tables(old(self).enc_key(), plaintexts_view(ciphertexts@)) is Some && old(self).last_query() is None
                ==> r is Ok && rel_view(r->Ok_0) == (Seq::<Seq<char>>::empty(), Seq::<Seq<Seq<char>>>::empty()),
            decrypt_tables(old(self).enc_key(), plaintexts_view(ciphertexts@)) is Some && old(self).last_query() is Some ==> {
                let f = finish_spec(old(self).sti().schema_view(), old(self).last_query()->Some_0,
                    decrypt_tables(old(self).enc_key(), plaintexts_view(ciphertexts@))->Some_0);
                &&& (r is Ok <==> f is Some)
                &&& (r is Ok ==> rel_view(r->Ok_0) == f->Some_0)
            },
    {
        let ghost cv = plaintexts_view(ciphertexts@);
        let mut plaintexts: Vec<Vec<Vec<u8>>> = Vec::new();
        let mut i: usize = 0;
        while i < ciphertexts.len()
            invariant
                i <= ciphertexts@.len(),
                cv == plaintexts_view(ciphertexts@),
                self.enc_key@.len() == 16,
                plaintexts@.len() == i,
                forall|a: int, b: int| 0 <= a < i && 0 <= b < cv[a].len() ==> (#[trigger] aes_cbc_decrypt_of(self.enc_key@, cv[a][b])) is Some,
                forall|a: int| 0 <= a < i ==> #[trigger] bytes_view(plaintexts@[a]@)
                    == cv[a].map_values(|c: Seq<u8>| aes_cbc_decrypt_of(self.enc_key@, c)->Some_0),
            decreases ciphertexts@.len() - i,
        {
            let table = &ciphertexts[i];
            let mut p_vec: Vec<Vec<u8>> = Vec::new();
            let mut j: usize = 0;
            while j < table.len()
                invariant
                    j <= table@.len(),
                    i < ciphertexts@.len(),
                    cv == plaintexts_view(ciphertexts@),
                    *table == ciphertexts@[i as int],
                    self.enc_key@.len() == 16,
                    p_vec@.len() == j,
                    forall|b: int| 0 <= b < j ==> (#[trigger] aes_cbc_decrypt_of(self.enc_key@, cv[i as int][b])) is Some,
                    forall|b: int| 0 <= b < j ==> #[trigger] p_vec@[b]@ == aes_cbc_decrypt_of(self.enc_key@, cv[i as int][b])->Some_0,
                decreases table@.len() - j,
            {
                assert(cv[i as int][j as int] == table@[j as int]@);
                match fixed_decrypt(table[j].as_slice(), self.enc_key.as_slice()) {
                    Ok(p) => p_vec.push(p),
                    Err(_) => {
                        assert(decrypt_tables(self.enc_key@, cv) is None) by {
                            assert(aes_cbc_decrypt_of(self.enc_key@, cv[i as int][j as int]) is None);
                        }
                        return Err(FinishError::BadCell);
                    },
                }
                j += 1;
            }
            assert(bytes_view(p_vec@) =~= cv[i as int].map_values(|c: Seq<u8>| aes_cbc_decrypt_of(self.enc_key@, c)->Some_0));
            plaintexts.push(p_vec);
            i += 1;
        }
        assert(decrypt_tables(self.enc_key@, cv) is Some);
        assert(plaintexts_view(plaintexts@) =~= decrypt_tables(self.enc_key@, cv)->Some_0);
        self.sti_client.fin_sti(&self.last_query, plaintexts)
    }

    /// The schema: each relation id with its attributes.
    pub fn schema(&self) -> (r: Vec<(String, Vec<String>)>)
        ensures
            r@.map_values(|e: (String, Vec<String>)| crate::sti::schema_entry_view(e)) == self.sti().schema_view(),
    {
        self.sti_client.schema()
    }
}

/// The seed after `seed`.
pub open spec fn next_seed_of(seed: u64) -> u64 {
    if seed == u64::MAX { 0 } else { (seed + 1) as u64 }
}

/// The label key, drawn right after the cell key.
pub open spec fn label_key_of(seed: u64) -> Seq<u8> {
    chacha20_key_of(next_seed_of(seed))
}

/// The seed of the multi-map key, drawn after the label key.
pub open spec fn index_seed_of(seed: u64) -> u64 {
    next_seed_of(next_seed_of(seed))
}

/// The server of the whole scheme: the index and the encrypted cell store.
pub struct STEServer {
    sti_server: STIServer,
    data: ByteMap,
}

impl STEServer {
    pub closed spec fn sti(&self) -> STIServer {
        self.sti_server
    }

    pub closed spec fn store(&self) -> ByteMap {
        self.data
    }

    /// A server made of an index and a cell store.
    pub fn from_parts(sti_server: STIServer, data: ByteMap) -> (r: STEServer)
        ensures
            r.sti() == sti_server,
            r.store() == data,
    {
        STEServer { sti_server, data }
    }

    /// The index.
    pub fn sti_server(&self) -> (r: &STIServer)
        ensures
            *r == self.sti(),
    {
        &self.sti_server
    }

    /// The cell store.
    pub fn data(&self) -> (r: &ByteMap)
        ensures
            *r == self.store(),
    {
        &self.data
    }

    pub fn new_ste_server() -> (r: STEServer)
        ensures
            r.store().entries().len() == 0,
            r.sti().emm().entries().len() == 0,
    {
        STEServer { sti_server: STIServer::new_sti_server(), data: ByteMap::new() }
    }

    /// Evaluates a search token and resolves every pointer of every
    /// resulting table through the cell store: one list of ciphertexts per
    /// table, row after row.
    pub fn eval_ste(&self, tk: HybToken) -> (r: Result<Vec<Vec<Vec<u8>>>, SearchError>)
        ensures
            eval_spec(self.sti().emm(), tk) is Err ==> r == Err::<Vec<Vec<Vec<u8>>>, SearchError>(SearchError::Eval(eval_spec(self.sti().emm(), tk)->Err_0)),
            eval_spec(self.sti().emm(), tk) is Ok ==> {
                let ts = eval_spec(self.sti().emm(), tk)->Ok_0;
                let all = forall|i: int| 0 <= i < ts.len() ==> (#[trigger] resolve(self.store().view(), table_cells(ts[i].0))) is Some;
                &&& (r is Ok <==> all)
                &&& (r is Err ==> r->Err_0 == SearchError::MissingCell)
                &&& (r is Ok ==> r->Ok_0@.len() == ts.len()
                    && forall|i: int| 0 <= i < ts.len() ==> #[trigger] bytes_view(r->Ok_0@[i]@)
                        == resolve(self.store().view(), table_cells(ts[i].0))->Some_0)
            },
    {
        let tables = match self.sti_server.eval_sti(tk) {
            Ok(t) => t,
            Err(e) => return Err(SearchError::Eval(e)),
        };
        let ghost ts = crate::eval::ref_views(tables@);
        let mut result: Vec<Vec<Vec<u8>>> = Vec::new();
        let mut i: usize = 0;
        while i < tables.len()
            invariant
                i <= tables@.len(),
                ts == crate::eval::ref_views(tables@),
                ts == eval_spec(self.sti().emm(), tk)->Ok_0,
                eval_spec(self.sti().emm(), tk) is Ok,
                result@.len() == i,
                forall|k: int| 0 <= k < i ==> (#[trigger] resolve(self.store().view(), table_cells(ts[k].0))) is Some,
                forall|k: int| 0 <= k < i ==> #[trigger] bytes_view(result@[k]@)
                    == resolve(self.store().view(), table_cells(ts[k].0))->Some_0,
            decreases tables@.len() - i,
        {
            let table = &tables[i];
            let ghost rows = table.rows();
            assert(rows == ts[i as int].0);
            let mut res_vec: Vec<Vec<u8>> = Vec::new();
            let ghost mut cells_so_far: Seq<Seq<u8>> = Seq::empty();
            assert(table_cells(rows.take(0)) =~= Seq::<Seq<u8>>::empty());
            let mut r: usize = 0;
            while r < table.refs.len()
                invariant
                    r <= table.refs@.len(),
                    i < tables@.len(),
                    *table == tables@[i as int],
                    ts == crate::eval::ref_views(tables@),
                    ts == eval_spec(self.sti().emm(), tk)->Ok_0,
                    eval_spec(self.sti().emm(), tk) is Ok,
                    rows == ts[i as int].0,
                    rows == table.rows(),
                    cells_so_far == table_cells(rows.take(r as int)),
                    res_vec@.len() == cells_so_far.len(),
                    forall|j: int| 0 <= j < cells_so_far.len() ==> self.store().view().contains_key(#[trigger] cells_so_far[j]),
                    forall|j: int| 0 <= j < cells_so_far.len() ==> #[trigger] res_vec@[j]@ == self.store().view()[cells_so_far[j]],
                decreases table.refs@.len() - r,
            {
                let row = &table.refs[r];
                assert(rows[r as int] == row.view());
                let mut c: usize = 0;
                let ghost base = cells_so_far;
                while c < row.cells.len()
                    invariant
                        c <= row.cells@.len(),
                        r < table.refs@.len(),
                        i < tables@.len(),
                        *table == tables@[i as int],
                        *row == table.refs@[r as int],
                        ts == crate::eval::ref_views(tables@),
                        ts == eval_spec(self.sti().emm(), tk)->Ok_0,
                        eval_spec(self.sti().emm(), tk) is Ok,
                        rows == ts[i as int].0,
                        rows == table.rows(),
                        base.len() + c == res_vec@.len(),
                        cells_so_far == base + row.view().0.take(c as int),
                        forall|j: int| 0 <= j < cells_so_far.len() ==> self.store().view().contains_key(#[trigger] cells_so_far[j]),
                        forall|j: int| 0 <= j < cells_so_far.len() ==> #[trigger] res_vec@[j]@ == self.store().view()[cells_so_far[j]],
                        forall|j: int| 0 <= j < base.len() ==> #[trigger] cells_so_far[j] == base[j],
                    decreases row.cells@.len() - c,
                {
                    assert(row.view().0[c as int] == row.cells@[c as int]@);
                    match self.data.get(row.cells[c].as_slice()) {
                        Some(v) => {
                            res_vec.push(bytes_to_vec(v.as_slice()));
                            proof {
                                cells_so_far = base + row.view().0.take(c as int + 1);
                                assert(cells_so_far =~= (base + row.view().0.take(c as int)).push(row.cells@[c as int]@));
                            }
                        },
                        None => {
                            proof {
                                let ghost k = i as int;
                                assert(!self.store().view().contains_key(row.cells@[c as int]@));
                                assert(rows[r as int] == row.view());
                                lemma_table_cells_index(rows, r as int, c as int);
                                let tc = table_cells(rows);
                                let w = choose|w: int| 0 <= w < tc.len() && tc[w] == row.cells@[c as int]@;
                                assert(!self.store().view().contains_key(tc[w]));
                                assert(resolve(self.store().view(), table_cells(ts[k].0)) is None);
                            }
                            return Err(SearchError::MissingCell);
                        },
                    }
                    c += 1;
                }
                proof {
                    assert(row.view().0.take(c as int) =~= row.view().0);
                    assert(rows.take(r as int + 1).drop_last() =~= rows.take(r as int));
                    assert(rows.take(r as int + 1).last() == row.view());
                }
                r += 1;
            }
            proof {
                assert(rows.take(r as int) =~= rows);
                assert(bytes_view(res_vec@) =~= resolve(self.store().view(), table_cells(rows))->Some_0);
            }
            result.push(res_vec);
            i += 1;
        }
        Ok(result)
    }
}

/// Cell `c` of row `r` is among the table's cells.
proof fn lemma_table_cells_index(rows: Seq<RowView>, r: int, c: int)
    requires
        0 <= r < rows.len(),
        0 <= c < rows[r].0.len(),
    ensures
        table_cells(rows).contains(rows[r].0[c]),
    decreases rows.len(),
{
    if r == rows.len() - 1 {
        let prefix = table_cells(rows.drop_last());
        assert(table_cells(rows)[prefix.len() + c] == rows[r].0[c]);
    } else {
        lemma_table_cells_index(rows.drop_last(), r, c);
        let prefix = table_cells(rows.drop_last());
        let k = choose|k: int| 0 <= k < prefix.len() && prefix[k] == rows[r].0[c];
        assert(table_cells(rows)[k] == rows[r].0[c]);
    }
}

/// The messages between client and server: the setup state shipped once,
/// a search token, and the two answers to it.
pub enum ServerCommand {
    Setup(STEServer),
    Search(HybToken),
    SearchResponse(Vec<Vec<Vec<u8>>>),
    SearchFailure(String),
}

} // verus!
