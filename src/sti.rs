use vstd::prelude::*;
use crate::bytemap::map_of;
use crate::db_structs::{strs_view, last_index_of, find_last, contains_string, copy_strings};
use crate::emm::{EMMClient, EMMServer, key1_of, key2_of};
use crate::encoding::{encode_str2, encode_str3, encode_str3_i32, bincode_str2_of, bincode_str3_of, bincode_str3_i32_of};
use crate::token::{BoolQuery, HybQuery, HybToken, KeyPair};
use crate::crypto_helper::{KeySeq, chacha20_key_of};
use crate::db_structs::{DB, Relation, pair_view};
use crate::emm::{setup_entries, bytes_view};
use crate::eval::{EvalError, TableView, ref_views, rr_kp, chunk_rows, select_step, project_step, ppj_step, project_matches, decoded_pairs, first_with_id, shift_fits, fpj_merge, chunk_refs, select_tables, project_tables, ppj_tables, find_table, decode_pairs, shift_ok};
use crate::eval_references::RefTable;
use crate::index::{build_index_mm, db_ready, mm_after, index_adds};
use crate::db_structs::table_view;
use crate::fin::{FinishError, RelView, rel_view, rel_views, decode_rows, joins_spec, decode_relation, join_remaining};

verus! {

/// Why a query could not be tokenized.
#[derive(Debug, PartialEq, Eq)]
pub enum TokenError {
    /// No relation of this name is in the schema.
    UnknownRelation(String),
    /// A selection names an attribute that no relation has.
    UnknownAttribute(String),
    /// A join names an attribute that no relation has.
    UnknownJoinAttribute(String),
    /// The pair was not declared joinable, in either order.
    NotAnnotated(String, String),
    /// The join would join a relation with itself: both attributes belong
    /// to one relation, or both sides read a common relation.
    SelfJoin(String),
    /// The relation holding this join attribute is not read by its side of
    /// the join.
    WrongSide(String),
    /// The query was malformed; the reason is kept.
    BadQuery(String),
}

pub type SchemaView = Seq<(Seq<char>, Seq<Seq<char>>)>;

pub open spec fn schema_entry_view(e: (String, Vec<String>)) -> (Seq<char>, Seq<Seq<char>>) {
    (e.0@, strs_view(e.1@))
}

/// The relation holding attribute `at`, with its position there: the last
/// relation in schema order that has it, and its last position in it.
pub open spec fn schema_lookup(schema: SchemaView, at: Seq<char>) -> Option<(Seq<char>, int)>
    decreases schema.len(),
{
    if schema.len() == 0 {
        None
    } else if last_index_of(schema.last().1, at) is Some {
        Some((schema.last().0, last_index_of(schema.last().1, at)->Some_0))
    } else {
        schema_lookup(schema.drop_last(), at)
    }
}

/// The key pair that the multi-map key `key` gives to the keyword `kw`.
pub open spec fn keys_for(kp: KeyPair, key: Seq<u8>, kw: Seq<u8>) -> bool {
    kp.0@ == key1_of(key, kw) && kp.1@ == key2_of(key, kw)
}

/// Whether `(a, b)` is annotated in neither order.
pub open spec fn unannotated(ann: Set<(Seq<char>, Seq<char>)>, a: Seq<char>, b: Seq<char>) -> bool {
    !ann.contains((a, b)) && !ann.contains((b, a))
}

/// The first error met while tokenizing `q`, in evaluation order: a join
/// tokenizes its left side, then its right side, then checks its attributes,
/// its annotation and that it joins two relations.
pub open spec fn tokenize_error(schema: SchemaView, ann: Set<(Seq<char>, Seq<char>)>, q: HybQuery) -> Option<TokenError>
    decreases q,
{
    match q {
        HybQuery::Id(id) => if map_of(schema).contains_key(id@) {
            None
        } else {
            Some(TokenError::UnknownRelation(id))
        },
        HybQuery::Select(BoolQuery::Eq(at, _), sub) => if tokenize_error(schema, ann, *sub) is Some {
            tokenize_error(schema, ann, *sub)
        } else if schema_lookup(schema, at@) is None {
            Some(TokenError::UnknownAttribute(at))
        } else {
            None
        },
        HybQuery::Select(BoolQuery::BadBool(s), _) => Some(TokenError::BadQuery(s)),
        HybQuery::Project(_, sub) => tokenize_error(schema, ann, *sub),
        HybQuery::FPJoin(a1, a2, s1, s2) => join_error(
            schema, ann, a1, a2, tokenize_error(schema, ann, *s1), tokenize_error(schema, ann, *s2),
            query_rels(*s1), query_rels(*s2)),
        HybQuery::PPJoin(a1, a2, s1, s2) => join_error(
            schema, ann, a1, a2, tokenize_error(schema, ann, *s1), tokenize_error(schema, ann, *s2),
            query_rels(*s1), query_rels(*s2)),
        HybQuery::BadQuery(s) => Some(TokenError::BadQuery(s)),
    }
}

/// The relations that a query reads.
pub open spec fn query_rels(q: HybQuery) -> Set<Seq<char>>
    decreases q,
{
    match q {
        HybQuery::Id(id) => set![id@],
        HybQuery::Select(_, sub) => query_rels(*sub),
        HybQuery::Project(_, sub) => query_rels(*sub),
        HybQuery::FPJoin(_, _, s1, s2) => query_rels(*s1).union(query_rels(*s2)),
        HybQuery::PPJoin(_, _, s1, s2) => query_rels(*s1).union(query_rels(*s2)),
        HybQuery::BadQuery(_) => Set::empty(),
    }
}

/// Whether two sets of relations share one.
pub open spec fn share_rel(r1: Set<Seq<char>>, r2: Set<Seq<char>>) -> bool {
    exists|x: Seq<char>| r1.contains(x) && r2.contains(x)
}

/// The error of a join whose sides gave `e1` and `e2` and read the relations
/// `r1` and `r2`.
pub open spec fn join_error(schema: SchemaView, ann: Set<(Seq<char>, Seq<char>)>, a1: String, a2: String, e1: Option<TokenError>, e2: Option<TokenError>,
    r1: Set<Seq<char>>, r2: Set<Seq<char>>) -> Option<TokenError> {
    if e1 is Some {
        e1
    } else if e2 is Some {
        e2
    } else if schema_lookup(schema, a1@) is None {
        Some(TokenError::UnknownJoinAttribute(a1))
    } else if schema_lookup(schema, a2@) is None {
        Some(TokenError::UnknownJoinAttribute(a2))
    } else if unannotated(ann, a1@, a2@) {
        Some(TokenError::NotAnnotated(a1, a2))
    } else if schema_lookup(schema, a1@)->Some_0.0 == schema_lookup(schema, a2@)->Some_0.0 || share_rel(r1, r2) {
        Some(TokenError::SelfJoin(a1))
    } else if !r1.contains(schema_lookup(schema, a1@)->Some_0.0) {
        Some(TokenError::WrongSide(a1))
    } else if !r2.contains(schema_lookup(schema, a2@)->Some_0.0) {
        Some(TokenError::WrongSide(a2))
    } else {
        None
    }
}

/// The relations that `q` reads, each once or more.
pub fn query_relations(q: &HybQuery) -> (r: Vec<String>)
    ensures
        strs_view(r@).to_set() == query_rels(*q),
    decreases q,
{
    match q {
        HybQuery::Id(id) => {
            let mut r: Vec<String> = Vec::new();
            r.push(id.clone());
            proof {
                assert(strs_view(r@) =~= seq![id@]);
                crate::eval_references::lemma_singleton_to_set(id@);
            }
            r
        },
        HybQuery::Select(_, sub) => query_relations(sub),
        HybQuery::Project(_, sub) => query_relations(sub),
        HybQuery::FPJoin(_, _, s1, s2) | HybQuery::PPJoin(_, _, s1, s2) => {
            let mut a = query_relations(s1);
            let mut b = query_relations(s2);
            let ghost av = a@;
            let ghost bv = b@;
            a.append(&mut b);
            proof {
                crate::eval_references::lemma_mapped_concat_to_set(av, bv, |s: String| s@);
            }
            a
        },
        HybQuery::BadQuery(_) => {
            assert(strs_view(Seq::<String>::empty()).to_set() =~= Set::<Seq<char>>::empty());
            Vec::new()
        },
    }
}

/// The join-side error of a join of relations `id1` and `id2` whose sides
/// read `s1` and `s2`, if any.
fn check_sides(id1: &String, id2: &String, a1: &String, a2: &String, s1: &HybQuery, s2: &HybQuery) -> (r: Option<TokenError>)
    ensures
        r == (if id1@ == id2@ || share_rel(query_rels(*s1), query_rels(*s2)) {
            Some(TokenError::SelfJoin(*a1))
        } else if !query_rels(*s1).contains(id1@) {
            Some(TokenError::WrongSide(*a1))
        } else if !query_rels(*s2).contains(id2@) {
            Some(TokenError::WrongSide(*a2))
        } else {
            None::<TokenError>
        }),
{
    let r1 = query_relations(s1);
    let r2 = query_relations(s2);
    if *id1 == *id2 {
        return Some(TokenError::SelfJoin(a1.clone()));
    }
    let mut i: usize = 0;
    while i < r1.len()
        invariant
            i <= r1@.len(),
            strs_view(r1@).to_set() == query_rels(*s1),
            strs_view(r2@).to_set() == query_rels(*s2),
            id1@ != id2@,
            forall|k: int| 0 <= k < i ==> !strs_view(r2@).contains(#[trigger] r1@[k]@),
        decreases r1@.len() - i,
    {
        if contains_string(&r2, &r1[i]) {
            proof {
                assert(strs_view(r1@)[i as int] == r1@[i as int]@);
                assert(query_rels(*s1).contains(r1@[i as int]@));
                assert(query_rels(*s2).contains(r1@[i as int]@));
            }
            return Some(TokenError::SelfJoin(a1.clone()));
        }
        i += 1;
    }
    assert(!share_rel(query_rels(*s1), query_rels(*s2))) by {
        if share_rel(query_rels(*s1), query_rels(*s2)) {
            let x = choose|x: Seq<char>| query_rels(*s1).contains(x) && query_rels(*s2).contains(x);
            let k = choose|k: int| 0 <= k < strs_view(r1@).len() && strs_view(r1@)[k] == x;
            assert(r1@[k]@ == x);
            assert(strs_view(r2@).to_set().contains(x));
        }
    }
    if !contains_string(&r1, id1) {
        return Some(TokenError::WrongSide(a1.clone()));
    }
    if !contains_string(&r2, id2) {
        return Some(TokenError::WrongSide(a2.clone()));
    }
    None
}

/// `t` is the token of `q` under multi-map key `key`: the same shape, each
/// keyword replaced by its key pair (`("i", id)` for a relation,
/// `("s", at, value)` for a selection, `("p", at)` for a projected column,
/// `("fpj", a, b)` and `("ppj", a, b, side)` for a join, the pair taken in
/// the order it was annotated). A projection also projects the attributes
/// `needed` by the joins above it, and a join adds its own two attributes to
/// what its sides need, so that a projection below a join keeps the join's
/// columns.
pub open spec fn token_of(key: Seq<u8>, schema: SchemaView, ann: Set<(Seq<char>, Seq<char>)>, needed: Seq<Seq<char>>, q: HybQuery, t: HybToken) -> bool
    decreases q,
{
    match q {
        HybQuery::Id(id) => match t {
            HybToken::Id(kp, tid, len) => keys_for(kp, key, bincode_str2_of("i"@, id@)) && tid@ == id@
                && len == map_of(schema)[id@].len(),
            _ => false,
        },
        HybQuery::Select(BoolQuery::Eq(at, val), sub) => match t {
            HybToken::Select(kp, sub_t, tid) => keys_for(kp, key, bincode_str3_of("s"@, at@, val@))
                && tid@ == schema_lookup(schema, at@)->Some_0.0 && token_of(key, schema, ann, needed, *sub, *sub_t),
            _ => false,
        },
        HybQuery::Project(cols, sub) => match t {
            HybToken::Project(kps, sub_t) => kps@.len() == cols@.len() + needed.len()
                && (forall|i: int| 0 <= i < kps@.len() ==> keys_for(#[trigger] kps@[i], key, bincode_str2_of("p"@, (strs_view(cols@) + needed)[i])))
                && token_of(key, schema, ann, needed, *sub, *sub_t),
            _ => false,
        },
        HybQuery::FPJoin(a1, a2, s1, s2) => match t {
            HybToken::FPJoin(kp, t1, t2, id1, id2, swapped) => {
                &&& swapped == !ann.contains((a1@, a2@))
                &&& keys_for(kp, key, if swapped { bincode_str3_of("fpj"@, a2@, a1@) } else { bincode_str3_of("fpj"@, a1@, a2@) })
                &&& id1@ == schema_lookup(schema, a1@)->Some_0.0
                &&& id2@ == schema_lookup(schema, a2@)->Some_0.0
                &&& token_of(key, schema, ann, needed + seq![a1@, a2@], *s1, *t1)
                &&& token_of(key, schema, ann, needed + seq![a1@, a2@], *s2, *t2)
            },
            _ => false,
        },
        HybQuery::PPJoin(a1, a2, s1, s2) => match t {
            HybToken::PPJoin(kp1, kp2, t1, t2, id1, id2, c1, c2, swapped) => {
                &&& swapped == !ann.contains((a1@, a2@))
                &&& keys_for(kp1, key, if swapped { bincode_str3_i32_of("ppj"@, a2@, a1@, 1) } else { bincode_str3_i32_of("ppj"@, a1@, a2@, 1) })
                &&& keys_for(kp2, key, if swapped { bincode_str3_i32_of("ppj"@, a2@, a1@, 2) } else { bincode_str3_i32_of("ppj"@, a1@, a2@, 2) })
                &&& id1@ == schema_lookup(schema, a1@)->Some_0.0
                &&& id2@ == schema_lookup(schema, a2@)->Some_0.0
                &&& c1 as int == schema_lookup(schema, a1@)->Some_0.1
                &&& c2 as int == schema_lookup(schema, a2@)->Some_0.1
                &&& token_of(key, schema, ann, needed + seq![a1@, a2@], *s1, *t1)
                &&& token_of(key, schema, ann, needed + seq![a1@, a2@], *s2, *t2)
            },
            _ => false,
        },
        _ => false,
    }
}

/// The strings of `a` followed by those of `b`.
fn concat_strings(a: &Vec<String>, b: &Vec<String>) -> (r: Vec<String>)
    ensures
        strs_view(r@) == strs_view(a@) + strs_view(b@),
        r@.len() == a@.len() + b@.len(),
{
    let mut r = copy_strings(a);
    let mut c = copy_strings(b);
    r.append(&mut c);
    assert(strs_view(r@) =~= strs_view(a@) + strs_view(b@));
    r
}

/// What the sides of a join on `(a1, a2)` need, below joins that need `needed`.
fn extend_needed(needed: &Vec<String>, a1: &String, a2: &String) -> (r: Vec<String>)
    ensures
        strs_view(r@) == strs_view(needed@) + seq![a1@, a2@],
{
    let mut r = copy_strings(needed);
    r.push(a1.clone());
    r.push(a2.clone());
    assert(strs_view(r@) =~= strs_view(needed@) + seq![a1@, a2@]);
    r
}

/// Whether the pair `(a, b)` is in `v`.
fn contains_pair(v: &Vec<(String, String)>, a: &String, b: &String) -> (r: bool)
    ensures
        r == v@.map_values(|p: (String, String)| (p.0@, p.1@)).to_set().contains((a@, b@)),
{
    let ghost f = |p: (String, String)| (p.0@, p.1@);
    let mut i: usize = 0;
    while i < v.len()
        invariant
            i <= v@.len(),
            f == |p: (String, String)| (p.0@, p.1@),
            forall|k: int| 0 <= k < i ==> (#[trigger] v@[k].0@, v@[k].1@) != (a@, b@),
        decreases v@.len() - i,
    {
        if v[i].0 == *a && v[i].1 == *b {
            assert(v@.map_values(f)[i as int] == (a@, b@));
            return true;
        }
        i += 1;
    }
    assert(!v@.map_values(f).to_set().contains((a@, b@))) by {
        let w = v@.map_values(f);
        if w.contains((a@, b@)) {
            let k = choose|k: int| 0 <= k < w.len() && w[k] == (a@, b@);
            assert((v@[k].0@, v@[k].1@) == (a@, b@));
        }
    }
    false
}

/// The client side of the structured token index: the multi-map client,
/// the schema and the declared join pairs.
pub struct STIClient {
    emm_client: EMMClient,
    schema: Vec<(String, Vec<String>)>,
    annotations: Vec<(String, String)>,
}

impl STIClient {
    pub closed spec fn key(&self) -> Seq<u8> {
        self.emm_client.key()
    }

    pub closed spec fn schema_view(&self) -> SchemaView {
        self.schema@.map_values(|e: (String, Vec<String>)| schema_entry_view(e))
    }

    pub closed spec fn ann_view(&self) -> Set<(Seq<char>, Seq<char>)> {
        self.annotations@.map_values(|p: (String, String)| (p.0@, p.1@)).to_set()
    }

    pub fn new_sti_client() -> (r: STIClient)
        ensures
            r.schema_view().len() == 0,
            r.ann_view() == Set::<(Seq<char>, Seq<char>)>::empty(),
    {
        let r = STIClient { emm_client: EMMClient::new_emm_client(), schema: Vec::new(), annotations: Vec::new() };
        assert(r.ann_view() =~= Set::<(Seq<char>, Seq<char>)>::empty());
        r
    }

    /// The schema: each relation id with its attributes.
    pub fn schema(&self) -> (r: Vec<(String, Vec<String>)>)
        ensures
            r@.map_values(|e: (String, Vec<String>)| schema_entry_view(e)) == self.schema_view(),
    {
        let mut r: Vec<(String, Vec<String>)> = Vec::new();
        let mut i: usize = 0;
        while i < self.schema.len()
            invariant
                i <= self.schema@.len(),
                r@.len() == i,
                forall|k: int| 0 <= k < i ==> schema_entry_view(#[trigger] r@[k]) == schema_entry_view(self.schema@[k]),
            decreases self.schema@.len() - i,
        {
            r.push((self.schema[i].0.clone(), copy_strings(&self.schema[i].1)));
            i += 1;
        }
        assert(r@.map_values(|e: (String, Vec<String>)| schema_entry_view(e)) =~= self.schema_view());
        r
    }

    /// The attributes of relation `id`.
    fn schema_ats(&self, id: &String) -> (r: Option<&Vec<String>>)
        ensures
            r is Some <==> map_of(self.schema_view()).contains_key(id@),
            r is Some ==> strs_view(r->Some_0@) == map_of(self.schema_view())[id@],
    {
        let ghost s = self.schema_view();
        let mut i: usize = self.schema.len();
        while i > 0
            invariant
                i <= self.schema@.len(),
                s == self.schema_view(),
                forall|j: int| i <= j < s.len() ==> s[j].0 != id@,
            decreases i,
        {
            if self.schema[i - 1].0 == *id {
                proof {
                    crate::bytemap::lemma_map_of_prefix(s, i as int, id@);
                    assert(s.take(i as int).drop_last() =~= s.take(i - 1));
                }
                return Some(&self.schema[i - 1].1);
            }
            i -= 1;
        }
        proof {
            crate::bytemap::lemma_map_of_absent(s, id@);
        }
        None
    }

    /// The relation holding attribute `at_target`, and the attribute's
    /// position in it.
    fn get_id_from_at(&self, at_target: &String) -> (r: Option<(String, usize)>)
        ensures
            r is Some <==> schema_lookup(self.schema_view(), at_target@) is Some,
            r is Some ==> r->Some_0.0@ == schema_lookup(self.schema_view(), at_target@)->Some_0.0
                && r->Some_0.1 as int == schema_lookup(self.schema_view(), at_target@)->Some_0.1,
    {
        let ghost s = self.schema_view();
        assert(s.take(self.schema@.len() as int) =~= s);
        let mut i: usize = self.schema.len();
        while i > 0
            invariant
                i <= self.schema@.len(),
                s == self.schema_view(),
                schema_lookup(s, at_target@) == schema_lookup(s.take(i as int), at_target@),
            decreases i,
        {
            assert(s.take(i as int).drop_last() =~= s.take(i - 1));
            assert(s.take(i as int).last() == s[i - 1]);
            match find_last(&self.schema[i - 1].1, at_target) {
                Some(p) => {
                    return Some((self.schema[i - 1].0.clone(), p));
                },
                None => {},
            }
            i -= 1;
        }
        assert(s.take(0) =~= Seq::<(Seq<char>, Seq<Seq<char>>)>::empty());
        None
    }

    fn tokenize_keyword(&mut self, kw: Vec<u8>) -> (r: KeyPair)
        ensures
            keys_for(r, old(self).key(), kw@),
            final(self).key() == old(self).key(),
            final(self).schema_view() == old(self).schema_view(),
            final(self).ann_view() == old(self).ann_view(),
    {
        self.emm_client.tokenize_emm(&kw)
    }

    /// Tokenizes a query plan bottom-up into a search token. A projection
    /// that lies below a join carries, besides one key pair per projected
    /// column, one key pair per attribute that the joins above it join on,
    /// so that the server keeps those cells for the join; the server then
    /// also learns the results of those projection lookups.
    pub fn tokenize_sti(&mut self, qry: &HybQuery) -> (r: Result<HybToken, TokenError>)
        ensures
            final(self).key() == old(self).key(),
            final(self).schema_view() == old(self).schema_view(),
            final(self).ann_view() == old(self).ann_view(),
            r is Err <==> tokenize_error(old(self).schema_view(), old(self).ann_view(), *qry) is Some,
            r is Err ==> r->Err_0 == tokenize_error(old(self).schema_view(), old(self).ann_view(), *qry)->Some_0,
            r is Ok ==> token_of(old(self).key(), old(self).schema_view(), old(self).ann_view(), Seq::empty(), *qry, r->Ok_0),
    {
        let none: Vec<String> = Vec::new();
        assert(strs_view(none@) =~= Seq::<Seq<char>>::empty());
        self.tokenize_with(qry, &none)
    }

    /// Tokenizes `qry` below joins that need the attributes `needed`.
    fn tokenize_with(&mut self, qry: &HybQuery, needed: &Vec<String>) -> (r: Result<HybToken, TokenError>)
        ensures
            final(self).key() == old(self).key(),
            final(self).schema_view() == old(self).schema_view(),
            final(self).ann_view() == old(self).ann_view(),
            r is Err <==> tokenize_error(old(self).schema_view(), old(self).ann_view(), *qry) is Some,
            r is Err ==> r->Err_0 == tokenize_error(old(self).schema_view(), old(self).ann_view(), *qry)->Some_0,
            r is Ok ==> token_of(old(self).key(), old(self).schema_view(), old(self).ann_view(), strs_view(needed@), *qry, r->Ok_0),
        decreases qry,
    {
        match qry {
            HybQuery::Id(id) => {
                match self.schema_ats(id) {
                    Some(ats) => {
                        let length = ats.len();
                        let kw = encode_str2("i", id.as_str());
                        proof { reveal_strlit("i"); }
                        Ok(HybToken::Id(self.tokenize_keyword(kw), id.clone(), length))
                    },
                    None => Err(TokenError::UnknownRelation(id.clone())),
                }
            },
            HybQuery::Select(BoolQuery::Eq(attrib, val), sub_query) => {
                let sub_tk = match self.tokenize_with(sub_query, needed) {
                    Ok(t) => t,
                    Err(e) => return Err(e),
                };
                match self.get_id_from_at(attrib) {
                    Some((id, _)) => {
                        let kw = encode_str3("s", attrib.as_str(), val.as_str());
                        Ok(HybToken::Select(self.tokenize_keyword(kw), Box::new(sub_tk), id))
                    },
                    None => Err(TokenError::UnknownAttribute(attrib.clone())),
                }
            },
            HybQuery::Select(BoolQuery::BadBool(s), _) => Err(TokenError::BadQuery(s.clone())),
            HybQuery::Project(cols, sub_query) => {
                let sub_tk = match self.tokenize_with(sub_query, needed) {
                    Ok(t) => t,
                    Err(e) => return Err(e),
                };
                let ghost key = self.key();
                let all = concat_strings(cols, needed);
                let mut tk_vec: Vec<KeyPair> = Vec::new();
                let mut i: usize = 0;
                while i < all.len()
                    invariant
                        i <= all@.len(),
                        strs_view(all@) == strs_view(cols@) + strs_view(needed@),
                        self.key() == key,
                        self.schema_view() == old(self).schema_view(),
                        self.ann_view() == old(self).ann_view(),
                        tk_vec@.len() == i,
                        forall|k: int| 0 <= k < i ==> keys_for(#[trigger] tk_vec@[k], key, bincode_str2_of("p"@, (strs_view(cols@) + strs_view(needed@))[k])),
                    decreases all@.len() - i,
                {
                    assert(strs_view(all@)[i as int] == all@[i as int]@);
                    let kw = encode_str2("p", all[i].as_str());
                    let kp = self.tokenize_keyword(kw);
                    tk_vec.push(kp);
                    i += 1;
                }
                Ok(HybToken::Project(tk_vec, Box::new(sub_tk)))
            },
            HybQuery::FPJoin(attrib1, attrib2, sub_query1, sub_query2) => {
                let inner = extend_needed(needed, attrib1, attrib2);
                let sub_tk1 = match self.tokenize_with(sub_query1, &inner) {
                    Ok(t) => t,
                    Err(e) => return Err(e),
                };
                let sub_tk2 = match self.tokenize_with(sub_query2, &inner) {
                    Ok(t) => t,
                    Err(e) => return Err(e),
                };
                let (id1, _) = match self.get_id_from_at(attrib1) {
                    Some(p) => p,
                    None => return Err(TokenError::UnknownJoinAttribute(attrib1.clone())),
                };
                let (id2, _) = match self.get_id_from_at(attrib2) {
                    Some(p) => p,
                    None => return Err(TokenError::UnknownJoinAttribute(attrib2.clone())),
                };
                let forward = contains_pair(&self.annotations, attrib1, attrib2);
                let backward = contains_pair(&self.annotations, attrib2, attrib1);
                if !forward && !backward {
                    return Err(TokenError::NotAnnotated(attrib1.clone(), attrib2.clone()));
                }
                match check_sides(&id1, &id2, attrib1, attrib2, sub_query1, sub_query2) {
                    Some(e) => return Err(e),
                    None => {},
                }
                let swapped = !forward;
                let kw = if swapped {
                    encode_str3("fpj", attrib2.as_str(), attrib1.as_str())
                } else {
                    encode_str3("fpj", attrib1.as_str(), attrib2.as_str())
                };
                let kp = self.tokenize_keyword(kw);
                Ok(HybToken::FPJoin(kp, Box::new(sub_tk1), Box::new(sub_tk2), id1, id2, swapped))
            },
            HybQuery::PPJoin(attrib1, attrib2, sub_query1, sub_query2) => {
                let inner = extend_needed(needed, attrib1, attrib2);
                let sub_tk1 = match self.tokenize_with(sub_query1, &inner) {
                    Ok(t) => t,
                    Err(e) => return Err(e),
                };
                let sub_tk2 = match self.tokenize_with(sub_query2, &inner) {
                    Ok(t) => t,
                    Err(e) => return Err(e),
                };
                let (id1, save_col1) = match self.get_id_from_at(attrib1) {
                    Some(p) => p,
                    None => return Err(TokenError::UnknownJoinAttribute(attrib1.clone())),
                };
                let (id2, save_col2) = match self.get_id_from_at(attrib2) {
                    Some(p) => p,
                    None => return Err(TokenError::UnknownJoinAttribute(attrib2.clone())),
                };
                let forward = contains_pair(&self.annotations, attrib1, attrib2);
                let backward = contains_pair(&self.annotations, attrib2, attrib1);
                if !forward && !backward {
                    return Err(TokenError::NotAnnotated(attrib1.clone(), attrib2.clone()));
                }
                match check_sides(&id1, &id2, attrib1, attrib2, sub_query1, sub_query2) {
                    Some(e) => return Err(e),
                    None => {},
                }
                let swapped = !forward;
                let (kw1, kw2) = if swapped {
                    (encode_str3_i32("ppj", attrib2.as_str(), attrib1.as_str(), 1),
                     encode_str3_i32("ppj", attrib2.as_str(), attrib1.as_str(), 2))
                } else {
                    (encode_str3_i32("ppj", attrib1.as_str(), attrib2.as_str(), 1),
                     encode_str3_i32("ppj", attrib1.as_str(), attrib2.as_str(), 2))
                };
                let kp1 = self.tokenize_keyword(kw1);
                let kp2 = self.tokenize_keyword(kw2);
                Ok(HybToken::PPJoin(kp1, kp2, Box::new(sub_tk1), Box::new(sub_tk2), id1, id2, save_col1, save_col2, swapped))
            },
            HybQuery::BadQuery(s) => Err(TokenError::BadQuery(s.clone())),
        }
    }
}

/// What the server's evaluation of token `tk` yields: the reference tables
/// of the relations that the token reads, joined where a full-pair join
/// says so, or the first failure met.
pub open spec fn eval_spec(server: EMMServer, tk: HybToken) -> Result<Seq<TableView>, EvalError>
    decreases tk,
{
    match tk {
        HybToken::Id(kp, id, length) => match rr_kp(server, kp) {
            None => Err(EvalError::Cipher),
            Some(cells) => match chunk_rows(cells, length as nat) {
                None => Err(EvalError::Malformed),
                Some(rows) => Ok(seq![(rows, set![id@], set![0usize])]),
            },
        },
        HybToken::Select(kp, sub, id) => match eval_spec(server, *sub) {
            Err(e) => Err(e),
            Ok(ts) => match rr_kp(server, kp) {
                None => Err(EvalError::Cipher),
                Some(m) => Ok(select_step(ts, id@, m)),
            },
        },
        HybToken::Project(kps, sub) => match eval_spec(server, *sub) {
            Err(e) => Err(e),
            Ok(ts) => match project_matches(server, kps@) {
                None => Err(EvalError::Cipher),
                Some(m) => Ok(project_step(ts, m)),
            },
        },
        HybToken::FPJoin(kp, s1, s2, id1, id2, swapped) => match (eval_spec(server, *s1), eval_spec(server, *s2)) {
            (Err(e), _) => Err(e),
            (_, Err(e)) => Err(e),
            (Ok(ts1), Ok(ts2)) => match rr_kp(server, kp) {
                None => Err(EvalError::Cipher),
                Some(m) => match (first_with_id(ts1, id1@), first_with_id(ts2, id2@)) {
                    (Some(i1), Some(i2)) => if shift_fits(ts1[i1], ts2[i2]) {
                        Ok(ts1.remove(i1) + ts2.remove(i2) + seq![fpj_merge(ts1[i1], ts2[i2], decoded_pairs(m, swapped))])
                    } else {
                        Err(EvalError::Malformed)
                    },
                    _ => Err(EvalError::MissingTable),
                },
            },
        },
        HybToken::PPJoin(kp1, kp2, s1, s2, id1, id2, c1, c2, swapped) => match (eval_spec(server, *s1), eval_spec(server, *s2)) {
            (Err(e), _) => Err(e),
            (_, Err(e)) => Err(e),
            (Ok(ts1), Ok(ts2)) => match (rr_kp(server, if swapped { kp2 } else { kp1 }), rr_kp(server, if swapped { kp1 } else { kp2 })) {
                (Some(m1), Some(m2)) => Ok(ppj_step(ts1, id1@, m1, c1) + ppj_step(ts2, id2@, m2, c2)),
                _ => Err(EvalError::Cipher),
            },
        },
        HybToken::BadToken => Ok(Seq::empty()),
    }
}

/// The relation ids with their attributes, in order.
pub open spec fn db_schema(rels: Seq<(Seq<char>, Relation)>) -> SchemaView {
    rels.map_values(|e: (Seq<char>, Relation)| (e.0, e.1.ats_view()))
}

impl STIClient {
    /// Indexes `db` under a fresh multi-map key: the schema and the
    /// annotations are kept, and every entry of `index_adds` is encrypted
    /// into the server's storage.
    pub fn setup_sti(&mut self, db: &DB, label_key: &[u8; 16], keys: &mut KeySeq) -> (r: STIServer)
        requires
            db_ready(db),
        ensures
            final(self).schema_view() == db_schema(db.entries()),
            final(self).ann_view() == db.annotation_set(),
            final(self).key() == chacha20_key_of(old(keys).next),
            final(keys).next == (if old(keys).next == u64::MAX { 0 } else { (old(keys).next + 1) as u64 }),
            exists|e: Seq<(Seq<u8>, Seq<Seq<u8>>)>| map_of(e) == mm_after(index_adds(label_key@, db.entries(), db.annotation_seq()))
                && #[trigger] r.emm().entries() == setup_entries(final(self).key(), e),
    {
        let mm = build_index_mm(db, label_key);
        let mut emm_client = EMMClient::new_emm_client();
        let emm_server = emm_client.setup_emm(&mm, keys);
        self.emm_client = emm_client;
        let schema = db.get_schema();
        self.schema = schema;
        assert(self.schema_view() =~= db_schema(db.entries()));
        let mut anns: Vec<(String, String)> = Vec::new();
        let mut i: usize = 0;
        while i < db.num_annotations()
            invariant
                i <= db.annotation_seq().len(),
                anns@.len() == i,
                forall|k: int| 0 <= k < i ==> pair_view(#[trigger] anns@[k]) == db.annotation_seq()[k],
            decreases db.annotation_seq().len() - i,
        {
            let (a1, a2) = db.annotation(i);
            anns.push((a1.clone(), a2.clone()));
            i += 1;
        }
        proof {
            db.lemma_annotation_set();
            assert(anns@.map_values(|p: (String, String)| (p.0@, p.1@)) =~= db.annotation_seq());
        }
        self.annotations = anns;
        let r = STIServer { emm_server };
        assert(map_of(mm.entries()) == mm_after(index_adds(label_key@, db.entries(), db.annotation_seq())));
        r
    }
}

/// The server side of the structured token index: the encrypted multi-map.
pub struct STIServer {
    emm_server: EMMServer,
}

impl STIServer {
    pub closed spec fn emm(&self) -> EMMServer {
        self.emm_server
    }

    pub fn new_sti_server() -> (r: STIServer)
        ensures
            r.emm().entries().len() == 0,
    {
        STIServer { emm_server: EMMServer::new_emm_server() }
    }

    /// A server over the encrypted multi-map `emm_server`.
    pub fn from_emm(emm_server: EMMServer) -> (r: STIServer)
        ensures
            r.emm() == emm_server,
    {
        STIServer { emm_server }
    }

    /// The encrypted multi-map.
    pub fn emm_server(&self) -> (r: &EMMServer)
        ensures
            *r == self.emm(),
    {
        &self.emm_server
    }

    fn lookup(&self, kp: &KeyPair) -> (r: Result<Vec<Vec<u8>>, EvalError>)
        ensures
            r is Ok <==> rr_kp(self.emm(), *kp) is Some,
            r is Ok ==> bytes_view(r->Ok_0@) == rr_kp(self.emm(), *kp)->Some_0,
            r is Err ==> r->Err_0 == EvalError::Cipher,
    {
        match self.emm_server.eval_emm_rr(kp.0.as_slice(), kp.1.as_slice()) {
            Ok(v) => Ok(v),
            Err(_) => Err(EvalError::Cipher),
        }
    }

    /// Evaluates a search token into reference tables: relation lookups
    /// become tables of pointer rows, selections and partial-pair joins
    /// filter rows, projections filter cells, full-pair joins concatenate
    /// matched rows; partial-pair joins leave their two tables apart.
    pub fn eval_sti(&self, tk: HybToken) -> (r: Result<Vec<RefTable>, EvalError>)
        ensures
            r is Ok <==> eval_spec(self.emm(), tk) is Ok,
            r is Ok ==> ref_views(r->Ok_0@) == eval_spec(self.emm(), tk)->Ok_0,
            r is Err ==> r->Err_0 == eval_spec(self.emm(), tk)->Err_0,
        decreases tk,
    {
        let ghost tkg = tk;
        match tk {
            HybToken::Id(kp, id, length) => {
                let cells = self.lookup(&kp)?;
                let rows = chunk_refs(cells, length)?;
                let table = RefTable::from_id(rows, id);
                let mut out: Vec<RefTable> = Vec::new();
                out.push(table);
                assert(ref_views(out@) =~= eval_spec(self.emm(), tk)->Ok_0);
                Ok(out)
            },
            HybToken::Select(kp, sub_tk, id) => {
                let mut tables = self.eval_sti(*sub_tk)?;
                let matches = self.lookup(&kp)?;
                select_tables(&mut tables, &id, &matches);
                Ok(tables)
            },
            HybToken::Project(tk_vec, sub_tk) => {
                let mut tables = self.eval_sti(*sub_tk)?;
                let ghost kps = tk_vec@;
                let ghost tv = ref_views(tables@);
                let mut matches: Vec<Vec<u8>> = Vec::new();
                let mut i: usize = 0;
                assert(kps.take(0) =~= Seq::<KeyPair>::empty());
                assert(bytes_view(matches@) =~= Seq::<Seq<u8>>::empty());
                while i < tk_vec.len()
                    invariant
                        i <= tk_vec@.len(),
                        kps == tk_vec@,
                        tv == ref_views(tables@),
                        tkg == tk,
                        eval_spec(self.emm(), tkg) == (match project_matches(self.emm(), kps) {
                            None => Err(EvalError::Cipher),
                            Some(m) => Ok(project_step(tv, m)),
                        }),
                        project_matches(self.emm(), kps.take(i as int)) is Some,
                        bytes_view(matches@) == project_matches(self.emm(), kps.take(i as int))->Some_0,
                    decreases tk_vec@.len() - i,
                {
                    proof {
                        assert(kps.take(i as int + 1).drop_last() =~= kps.take(i as int));
                    }
                    let found = match self.lookup(&tk_vec[i]) {
                        Ok(v) => v,
                        Err(e) => {
                            proof {
                                assert(kps[i as int] == tk_vec@[i as int]);
                                lemma_project_matches_none(self.emm(), kps, i as int + 1);
                            }
                            return Err(e);
                        },
                    };
                    let ghost before = bytes_view(matches@);
                    let mut k: usize = 0;
                    while k < found.len()
                        invariant
                            k <= found@.len(),
                            matches@.len() == before.len() + k,
                            bytes_view(matches@) == before + bytes_view(found@).take(k as int),
                        decreases found@.len() - k,
                    {
                        let ghost prev = matches@;
                        matches.push(crate::bytemap::bytes_to_vec(found[k].as_slice()));
                        proof {
                            assert(bytes_view(matches@) =~= bytes_view(prev).push(found@[k as int]@));
                            assert(bytes_view(found@).take(k as int + 1) =~= bytes_view(found@).take(k as int).push(found@[k as int]@));
                        }
                        k += 1;
                        assert(bytes_view(matches@) =~= before + bytes_view(found@).take(k as int));
                    }
                    proof {
                        assert(bytes_view(found@).take(k as int) =~= bytes_view(found@));
                    }
                    i += 1;
                }
                assert(kps.take(i as int) =~= kps);
                project_tables(&mut tables, &matches);
                Ok(tables)
            },
            HybToken::FPJoin(kp, sub_tk1, sub_tk2, id1, id2, swapped) => {
                let mut tables1 = self.eval_sti(*sub_tk1)?;
                let mut tables2 = self.eval_sti(*sub_tk2)?;
                let matches = self.lookup(&kp)?;
                let pairs = decode_pairs(&matches, swapped);
                let i1 = match find_table(&tables1, &id1) {
                    Some(i) => i,
                    None => return Err(EvalError::MissingTable),
                };
                let i2 = match find_table(&tables2, &id2) {
                    Some(i) => i,
                    None => return Err(EvalError::MissingTable),
                };
                proof {
                    crate::eval::lemma_first_with_id_bound(ref_views(tables1@), id1@);
                    crate::eval::lemma_first_with_id_bound(ref_views(tables2@), id2@);
                }
                if !shift_ok(&tables1[i1], &tables2[i2]) {
                    return Err(EvalError::Malformed);
                }
                let merged = tables1[i1].concat_table(&tables2[i2], &pairs);
                let ghost v1 = ref_views(tables1@);
                let ghost v2 = ref_views(tables2@);
                let ghost mv = crate::eval::ref_view(merged);
                tables1.remove(i1);
                tables2.remove(i2);
                let ghost w1 = tables1@;
                let ghost w2 = tables2@;
                tables1.append(&mut tables2);
                tables1.push(merged);
                proof {
                    assert(ref_views(w1) =~= v1.remove(i1 as int));
                    assert(ref_views(w2) =~= v2.remove(i2 as int));
                    assert(ref_views(tables1@) =~= v1.remove(i1 as int) + v2.remove(i2 as int) + seq![mv]);
                }
                Ok(tables1)
            },
            HybToken::PPJoin(kp1, kp2, sub_tk1, sub_tk2, id1, id2, save_col1, save_col2, swapped) => {
                let mut tables1 = self.eval_sti(*sub_tk1)?;
                let mut tables2 = self.eval_sti(*sub_tk2)?;
                let (first, second) = if swapped { (&kp2, &kp1) } else { (&kp1, &kp2) };
                let matches1 = self.lookup(first)?;
                let matches2 = self.lookup(second)?;
                ppj_tables(&mut tables1, &id1, &matches1, save_col1);
                ppj_tables(&mut tables2, &id2, &matches2, save_col2);
                let ghost w1 = ref_views(tables1@);
                let ghost w2 = ref_views(tables2@);
                tables1.append(&mut tables2);
                assert(ref_views(tables1@) =~= w1 + w2);
                Ok(tables1)
            },
            HybToken::BadToken => {
                assert(ref_views(Seq::<RefTable>::empty()) =~= Seq::<TableView>::empty());
                Ok(Vec::new())
            },
        }
    }
}

/// A failing lookup in a prefix of the projected columns fails them all.
proof fn lemma_project_matches_none(server: EMMServer, kps: Seq<KeyPair>, n: int)
    requires
        0 < n <= kps.len(),
        rr_kp(server, kps[n - 1]) is None,
    ensures
        project_matches(server, kps) is None,
    decreases kps.len(),
{
    if n == kps.len() {
        assert(kps.last() == kps[n - 1]);
    } else {
        assert(kps.drop_last()[n - 1] == kps[n - 1]);
        lemma_project_matches_none(server, kps.drop_last(), n);
    }
}

/// The attributes of `ats` that are projected or saved.
pub open spec fn filter_ats(ats: Seq<Seq<char>>, cols: Seq<Seq<char>>, save: Seq<Seq<char>>) -> Seq<Seq<char>>
    decreases ats.len(),
{
    if ats.len() == 0 {
        Seq::empty()
    } else {
        filter_ats(ats.drop_last(), cols, save) + (
        if cols.contains(ats.last()) || save.contains(ats.last()) { seq![ats.last()] } else { Seq::empty() })
    }
}

/// The first table whose attributes include `at`.
pub open spec fn first_table_with(ts: Seq<Seq<Seq<char>>>, at: Seq<char>) -> Option<int>
    decreases ts.len(),
{
    if ts.len() == 0 {
        None
    } else {
        match first_table_with(ts.drop_last(), at) {
            Some(i) => Some(i),
            None => if ts.last().contains(at) { Some(ts.len() - 1) } else { None },
        }
    }
}

/// The attributes of each table that the server returns for `q`, in the
/// order it returns them, and the attributes that joins still need; a
/// projection also keeps the attributes `needed` by the joins above it.
pub open spec fn ats_of(schema: SchemaView, q: HybQuery, needed: Seq<Seq<char>>) -> (Seq<Seq<Seq<char>>>, Seq<Seq<char>>)
    decreases q,
{
    match q {
        HybQuery::Id(id) => {
            let m = map_of(schema);
            if m.contains_key(id@) && m[id@].len() > 0 {
                (seq![m[id@]], seq![m[id@][0]])
            } else {
                (Seq::empty(), Seq::empty())
            }
        },
        HybQuery::Select(_, sub) => ats_of(schema, *sub, needed),
        HybQuery::FPJoin(a1, a2, s1, s2) => {
            let (t1, v1) = ats_of(schema, *s1, needed + seq![a1@, a2@]);
            let (t2, v2) = ats_of(schema, *s2, needed + seq![a1@, a2@]);
            match (first_table_with(t1, a1@), first_table_with(t2, a2@)) {
                (Some(i1), Some(i2)) => (t1.remove(i1) + t2.remove(i2) + seq![t1[i1] + t2[i2]], v1 + v2),
                _ => (t1 + t2, v1 + v2),
            }
        },
        HybQuery::PPJoin(a1, a2, s1, s2) => {
            let (t1, v1) = ats_of(schema, *s1, needed + seq![a1@, a2@]);
            let (t2, v2) = ats_of(schema, *s2, needed + seq![a1@, a2@]);
            (t1 + t2, v1 + v2 + seq![a1@, a2@])
        },
        HybQuery::Project(cols, sub) => {
            let (t, v) = ats_of(schema, *sub, needed);
            (t.map_values(|ats: Seq<Seq<char>>| filter_ats(ats, strs_view(cols@) + needed, v)), v)
        },
        HybQuery::BadQuery(_) => (Seq::empty(), Seq::empty()),
    }
}

/// The partial-pair joins of `q`, left side first, inner joins first.
pub open spec fn remaining_joins(q: HybQuery) -> Seq<(Seq<char>, Seq<char>)>
    decreases q,
{
    match q {
        HybQuery::Select(_, sub) => remaining_joins(*sub),
        HybQuery::Project(_, sub) => remaining_joins(*sub),
        HybQuery::FPJoin(_, _, s1, s2) => remaining_joins(*s1) + remaining_joins(*s2),
        HybQuery::PPJoin(a1, a2, s1, s2) => remaining_joins(*s1) + remaining_joins(*s2) + seq![(a1@, a2@)],
        _ => Seq::empty(),
    }
}

/// The attributes the answer to `q` shows: every explicit projection
/// intersected with what lies below it.
pub open spec fn true_projection(schema: SchemaView, q: HybQuery) -> Set<Seq<char>>
    decreases q,
{
    match q {
        HybQuery::Id(id) => if map_of(schema).contains_key(id@) { map_of(schema)[id@].to_set() } else { Set::empty() },
        HybQuery::Select(_, sub) => true_projection(schema, *sub),
        HybQuery::Project(cols, sub) => true_projection(schema, *sub).intersect(strs_view(cols@).to_set()),
        HybQuery::FPJoin(_, _, s1, s2) => true_projection(schema, *s1).union(true_projection(schema, *s2)),
        HybQuery::PPJoin(_, _, s1, s2) => true_projection(schema, *s1).union(true_projection(schema, *s2)),
        _ => Set::empty(),
    }
}

pub open spec fn strs_set(v: Seq<String>) -> Set<Seq<char>> {
    strs_view(v).to_set()
}

/// The decrypted answer: the tables rebuilt from their cells, the deferred
/// joins performed, and, if exactly one relation remains, that relation
/// cut down to the query's true projection.
pub open spec fn finish_spec(schema: SchemaView, q: HybQuery, plaintexts: Seq<Seq<Seq<u8>>>) -> Option<RelView> {
    let ts = ats_of(schema, q, Seq::empty()).0;
    if ts.len() != plaintexts.len() {
        None
    } else if exists|i: int| 0 <= i < ts.len() && (#[trigger] decode_rows(plaintexts[i], ts[i].len())) is None {
        None
    } else {
        let built = Seq::new(ts.len(), |i: int| (ts[i], decode_rows(plaintexts[i], ts[i].len())->Some_0));
        match joins_spec(built, remaining_joins(q)) {
            Some(rs) => if rs.len() == 1 {
                let tp = true_projection(schema, q);
                if tp.is_empty() {
                    Some(rs[0])
                } else {
                    let kp = crate::db_structs::kept_positions(rs[0].0, choose_cols(tp));
                    Some((crate::db_structs::pick(rs[0].0, kp), rs[0].1.map_values(|row: Seq<Seq<char>>| crate::db_structs::pick(row, kp))))
                }
            } else {
                None
            },
            None => None,
        }
    }
}

/// A sequence holding exactly the elements of `s`.
pub open spec fn choose_cols(s: Set<Seq<char>>) -> Seq<Seq<char>> {
    choose|v: Seq<Seq<char>>| v.to_set() == s
}

/// The position of the first table whose attributes include `at`.
fn first_table_index(ts: &Vec<Vec<String>>, at: &String) -> (r: Option<usize>)
    ensures
        r is Some <==> first_table_with(table_view(ts@), at@) is Some,
        r is Some ==> r->Some_0 as int == first_table_with(table_view(ts@), at@)->Some_0 && r->Some_0 < ts@.len(),
{
    let ghost v = table_view(ts@);
    let mut i: usize = 0;
    while i < ts.len()
        invariant
            i <= ts@.len(),
            v == table_view(ts@),
            first_table_with(v.take(i as int), at@) is None,
        decreases ts@.len() - i,
    {
        proof {
            assert(v.take(i as int + 1).drop_last() =~= v.take(i as int));
            assert(v.take(i as int + 1).last() == strs_view(ts@[i as int]@));
        }
        if contains_string(&ts[i], at) {
            proof { lemma_first_table_prefix(v, i as int + 1, at@); }
            return Some(i);
        }
        i += 1;
    }
    assert(v.take(i as int) =~= v);
    None
}

proof fn lemma_first_table_prefix(v: Seq<Seq<Seq<char>>>, n: int, at: Seq<char>)
    requires
        0 <= n <= v.len(),
        first_table_with(v.take(n), at) is Some,
    ensures
        first_table_with(v, at) == first_table_with(v.take(n), at),
    decreases v.len(),
{
    if n < v.len() {
        assert(v.drop_last().take(n) =~= v.take(n));
        lemma_first_table_prefix(v.drop_last(), n, at);
    } else {
        assert(v.take(n) =~= v);
    }
}

/// The attributes of `ats` that are in `cols` or in `save`, in order.
fn filter_attributes(ats: &Vec<String>, cols: &Vec<String>, save: &Vec<String>) -> (r: Vec<String>)
    ensures
        strs_view(r@) == filter_ats(strs_view(ats@), strs_view(cols@), strs_view(save@)),
{
    let ghost av = strs_view(ats@);
    let mut r: Vec<String> = Vec::new();
    let mut i: usize = 0;
    assert(av.take(0) =~= Seq::<Seq<char>>::empty());
    while i < ats.len()
        invariant
            i <= ats@.len(),
            av == strs_view(ats@),
            strs_view(r@) == filter_ats(av.take(i as int), strs_view(cols@), strs_view(save@)),
        decreases ats@.len() - i,
    {
        proof {
            assert(av.take(i as int + 1).drop_last() =~= av.take(i as int));
            assert(av.take(i as int + 1).last() == ats@[i as int]@);
        }
        if contains_string(cols, &ats[i]) || contains_string(save, &ats[i]) {
            r.push(ats[i].clone());
        }
        assert(strs_view(r@) =~= filter_ats(av.take(i as int + 1), strs_view(cols@), strs_view(save@)));
        i += 1;
    }
    assert(av.take(i as int) =~= av);
    r
}

/// Two sequences with the same elements keep the same positions.
proof fn lemma_kept_positions_set(ats: Seq<Seq<char>>, c1: Seq<Seq<char>>, c2: Seq<Seq<char>>)
    requires
        c1.to_set() == c2.to_set(),
    ensures
        crate::db_structs::kept_positions(ats, c1) == crate::db_structs::kept_positions(ats, c2),
    decreases ats.len(),
{
    if ats.len() > 0 {
        lemma_kept_positions_set(ats.drop_last(), c1, c2);
        assert(c1.contains(ats.last()) == c1.to_set().contains(ats.last()));
        assert(c2.contains(ats.last()) == c2.to_set().contains(ats.last()));
    }
}

impl STIClient {
    /// The attributes of each table that the server returns for `qry`, and
    /// the attributes that joins still need.
    fn get_ats_from_qry(&self, qry: &HybQuery, needed: &Vec<String>) -> (r: (Vec<Vec<String>>, Vec<String>))
        ensures
            (table_view(r.0@), strs_view(r.1@)) == ats_of(self.schema_view(), *qry, strs_view(needed@)),
        decreases qry,
    {
        match qry {
            HybQuery::Id(id) => {
                match self.schema_ats(id) {
                    Some(ats) => {
                        if ats.len() > 0 {
                            let mut t: Vec<Vec<String>> = Vec::new();
                            t.push(copy_strings(ats));
                            let mut v: Vec<String> = Vec::new();
                            v.push(ats[0].clone());
                            assert(table_view(t@) =~= seq![strs_view(ats@)]);
                            assert(strs_view(v@) =~= seq![strs_view(ats@)[0]]);
                            (t, v)
                        } else {
                            assert(table_view(Seq::<Vec<String>>::empty()) =~= Seq::<Seq<Seq<char>>>::empty());
                            assert(strs_view(Seq::<String>::empty()) =~= Seq::<Seq<char>>::empty());
                            (Vec::new(), Vec::new())
                        }
                    },
                    None => {
                        assert(table_view(Seq::<Vec<String>>::empty()) =~= Seq::<Seq<Seq<char>>>::empty());
                        assert(strs_view(Seq::<String>::empty()) =~= Seq::<Seq<char>>::empty());
                        (Vec::new(), Vec::new())
                    },
                }
            },
            HybQuery::Select(_, sub_query) => self.get_ats_from_qry(sub_query, needed),
            HybQuery::FPJoin(attrib1, attrib2, sub_query1, sub_query2) => {
                let inner = extend_needed(needed, attrib1, attrib2);
                let (mut t1, mut v1) = self.get_ats_from_qry(sub_query1, &inner);
                let (mut t2, mut v2) = self.get_ats_from_qry(sub_query2, &inner);
                let ghost tv1 = table_view(t1@);
                let ghost tv2 = table_view(t2@);
                let ghost vv1 = strs_view(v1@);
                let ghost vv2 = strs_view(v2@);
                v1.append(&mut v2);
                assert(strs_view(v1@) =~= vv1 + vv2);
                match (first_table_index(&t1, attrib1), first_table_index(&t2, attrib2)) {
                    (Some(i1), Some(i2)) => {
                        let mut merged = copy_strings(&t1[i1]);
                        let mut tail = copy_strings(&t2[i2]);
                        merged.append(&mut tail);
                        let ghost mv = strs_view(merged@);
                        assert(mv =~= tv1[i1 as int] + tv2[i2 as int]);
                        t1.remove(i1);
                        t2.remove(i2);
                        let ghost w1 = t1@;
                        let ghost w2 = t2@;
                        t1.append(&mut t2);
                        t1.push(merged);
                        assert(table_view(w1) =~= tv1.remove(i1 as int));
                        assert(table_view(w2) =~= tv2.remove(i2 as int));
                        assert(table_view(t1@) =~= tv1.remove(i1 as int) + tv2.remove(i2 as int) + seq![mv]);
                        (t1, v1)
                    },
                    _ => {
                        t1.append(&mut t2);
                        assert(table_view(t1@) =~= tv1 + tv2);
                        (t1, v1)
                    },
                }
            },
            HybQuery::PPJoin(attrib1, attrib2, sub_query1, sub_query2) => {
                let inner = extend_needed(needed, attrib1, attrib2);
                let (mut t1, mut v1) = self.get_ats_from_qry(sub_query1, &inner);
                let (mut t2, mut v2) = self.get_ats_from_qry(sub_query2, &inner);
                let ghost tv1 = table_view(t1@);
                let ghost tv2 = table_view(t2@);
                let ghost vv1 = strs_view(v1@);
                let ghost vv2 = strs_view(v2@);
                t1.append(&mut t2);
                v1.append(&mut v2);
                v1.push(attrib1.clone());
                v1.push(attrib2.clone());
                assert(table_view(t1@) =~= tv1 + tv2);
                assert(strs_view(v1@) =~= vv1 + vv2 + seq![attrib1@, attrib2@]);
                (t1, v1)
            },
            HybQuery::Project(cols, sub_query) => {
                let (t, v) = self.get_ats_from_qry(sub_query, needed);
                let all = concat_strings(cols, needed);
                let mut out: Vec<Vec<String>> = Vec::new();
                let mut i: usize = 0;
                while i < t.len()
                    invariant
                        i <= t@.len(),
                        out@.len() == i,
                        strs_view(all@) == strs_view(cols@) + strs_view(needed@),
                        forall|k: int| 0 <= k < i ==> #[trigger] strs_view(out@[k]@)
                            == filter_ats(strs_view(t@[k]@), strs_view(cols@) + strs_view(needed@), strs_view(v@)),
                    decreases t@.len() - i,
                {
                    out.push(filter_attributes(&t[i], &all, &v));
                    i += 1;
                }
                assert(table_view(out@) =~= table_view(t@).map_values(
                    |ats: Seq<Seq<char>>| filter_ats(ats, strs_view(cols@) + strs_view(needed@), strs_view(v@))));
                (out, v)
            },
            HybQuery::BadQuery(_) => {
                assert(table_view(Seq::<Vec<String>>::empty()) =~= Seq::<Seq<Seq<char>>>::empty());
                assert(strs_view(Seq::<String>::empty()) =~= Seq::<Seq<char>>::empty());
                (Vec::new(), Vec::new())
            },
        }
    }

    /// The partial-pair joins of `qry`, to be done after decryption.
    fn get_remaining_joins(&self, qry: &HybQuery) -> (r: Vec<(String, String)>)
        ensures
            r@.map_values(|p: (String, String)| (p.0@, p.1@)) == remaining_joins(*qry),
        decreases qry,
    {
        let ghost f = |p: (String, String)| (p.0@, p.1@);
        match qry {
            HybQuery::Select(_, sub_query) => self.get_remaining_joins(sub_query),
            HybQuery::Project(_, sub_query) => self.get_remaining_joins(sub_query),
            HybQuery::FPJoin(_, _, sub_query1, sub_query2) => {
                let mut r1 = self.get_remaining_joins(sub_query1);
                let mut r2 = self.get_remaining_joins(sub_query2);
                let ghost a = r1@;
                let ghost b = r2@;
                r1.append(&mut r2);
                assert(r1@.map_values(f) =~= a.map_values(f) + b.map_values(f));
                r1
            },
            HybQuery::PPJoin(attrib1, attrib2, sub_query1, sub_query2) => {
                let mut r1 = self.get_remaining_joins(sub_query1);
                let mut r2 = self.get_remaining_joins(sub_query2);
                let ghost a = r1@;
                let ghost b = r2@;
                r1.append(&mut r2);
                r1.push((attrib1.clone(), attrib2.clone()));
                assert(r1@.map_values(f) =~= a.map_values(f) + b.map_values(f) + seq![(attrib1@, attrib2@)]);
                r1
            },
            _ => {
                assert(Seq::<(String, String)>::empty().map_values(f) =~= Seq::<(Seq<char>, Seq<char>)>::empty());
                Vec::new()
            },
        }
    }

    /// The attributes the answer to `qry` shows.
    fn get_true_projection(&self, qry: &HybQuery) -> (r: Vec<String>)
        ensures
            strs_set(r@) == true_projection(self.schema_view(), *qry),
        decreases qry,
    {
        match qry {
            HybQuery::Id(id) => match self.schema_ats(id) {
                Some(ats) => copy_strings(ats),
                None => {
                    assert(strs_set(Seq::<String>::empty()) =~= Set::<Seq<char>>::empty());
                    Vec::new()
                },
            },
            HybQuery::Select(_, sub_query) => self.get_true_projection(sub_query),
            HybQuery::Project(cols, sub_query) => {
                let sub = self.get_true_projection(sub_query);
                let mut r: Vec<String> = Vec::new();
                let mut i: usize = 0;
                while i < sub.len()
                    invariant
                        i <= sub@.len(),
                        forall|x: Seq<char>| strs_set(r@).contains(x) <==>
                            (exists|k: int| 0 <= k < i && #[trigger] sub@[k]@ == x) && strs_view(cols@).contains(x),
                    decreases sub@.len() - i,
                {
                    let ghost before = r@;
                    let in_cols = contains_string(cols, &sub[i]);
                    if in_cols {
                        r.push(sub[i].clone());
                    }
                    proof {
                        let si = sub@[i as int]@;
                        assert forall|x: Seq<char>| strs_set(r@).contains(x) <==> strs_set(before).contains(x) || (in_cols && x == si) by {
                            if in_cols {
                                if strs_set(r@).contains(x) {
                                    let q = choose|q: int| 0 <= q < strs_view(r@).len() && strs_view(r@)[q] == x;
                                    if q < before.len() { assert(strs_view(before)[q] == x); }
                                }
                                if strs_set(before).contains(x) {
                                    let q = choose|q: int| 0 <= q < strs_view(before).len() && strs_view(before)[q] == x;
                                    assert(strs_view(r@)[q] == x);
                                }
                                if x == si {
                                    assert(strs_view(r@)[before.len() as int] == x);
                                }
                            } else {
                                assert(r@ == before);
                            }
                        }
                        assert forall|x: Seq<char>| strs_set(r@).contains(x) <==>
                            (exists|k: int| 0 <= k < i + 1 && #[trigger] sub@[k]@ == x) && strs_view(cols@).contains(x) by {
                            assert(strs_set(before).contains(x) <==>
                                (exists|k: int| 0 <= k < i && #[trigger] sub@[k]@ == x) && strs_view(cols@).contains(x));
                            assert(in_cols == strs_view(cols@).contains(si));
                            if (exists|k: int| 0 <= k < i + 1 && #[trigger] sub@[k]@ == x) {
                                let k = choose|k: int| 0 <= k < i + 1 && #[trigger] sub@[k]@ == x;
                                if k < i {
                                    assert(exists|k2: int| 0 <= k2 < i && #[trigger] sub@[k2]@ == x);
                                } else {
                                    assert(x == si);
                                }
                            }
                            if (exists|k: int| 0 <= k < i && #[trigger] sub@[k]@ == x) {
                                let k = choose|k: int| 0 <= k < i && #[trigger] sub@[k]@ == x;
                                assert(0 <= k < i + 1 && sub@[k]@ == x);
                            }
                            if x == si {
                                assert(0 <= i < i + 1 && sub@[i as int]@ == x);
                            }
                        }
                    }
                    i += 1;
                }
                assert(strs_set(r@) =~= true_projection(self.schema_view(), *qry)) by {
                    assert forall|x: Seq<char>| strs_set(r@).contains(x) <==> strs_set(sub@).contains(x) && strs_view(cols@).to_set().contains(x) by {
                        if strs_set(sub@).contains(x) {
                            let q = choose|q: int| 0 <= q < strs_view(sub@).len() && strs_view(sub@)[q] == x;
                            assert(sub@[q]@ == x);
                        }
                        if (exists|k: int| 0 <= k < i && #[trigger] sub@[k]@ == x) {
                            let k = choose|k: int| 0 <= k < i && #[trigger] sub@[k]@ == x;
                            assert(strs_view(sub@)[k] == x);
                        }
                    }
                }
                r
            },
            HybQuery::FPJoin(_, _, sub_query1, sub_query2) => {
                let mut a = self.get_true_projection(sub_query1);
                let mut b = self.get_true_projection(sub_query2);
                let ghost av = a@;
                let ghost bv = b@;
                a.append(&mut b);
                proof {
                    crate::eval_references::lemma_mapped_concat_to_set(av, bv, |s: String| s@);
                }
                a
            },
            HybQuery::PPJoin(_, _, sub_query1, sub_query2) => {
                let mut a = self.get_true_projection(sub_query1);
                let mut b = self.get_true_projection(sub_query2);
                let ghost av = a@;
                let ghost bv = b@;
                a.append(&mut b);
                proof {
                    crate::eval_references::lemma_mapped_concat_to_set(av, bv, |s: String| s@);
                }
                a
            },
            HybQuery::BadQuery(_) => {
                assert(strs_set(Seq::<String>::empty()) =~= Set::<Seq<char>>::empty());
                Vec::new()
            },
        }
    }
}

pub open spec fn plaintexts_view(p: Seq<Vec<Vec<u8>>>) -> Seq<Seq<Seq<u8>>> {
    p.map_values(|t: Vec<Vec<u8>>| bytes_view(t@))
}

impl STIClient {
    /// Puts the decrypted cells of a query's tables back together: each
    /// table is rebuilt from its attributes, the partial-pair joins are done
    /// on plaintext, and the one remaining relation is cut down to the
    /// query's true projection. Without a query, the answer is empty.
    pub fn fin_sti(&self, qry_opt: &Option<HybQuery>, plaintexts: Vec<Vec<Vec<u8>>>) -> (r: Result<Relation, FinishError>)
        ensures
            qry_opt is None ==> r is Ok && rel_view(r->Ok_0) == (Seq::<Seq<char>>::empty(), Seq::<Seq<Seq<char>>>::empty()),
            qry_opt is Some ==> (r is Ok <==> finish_spec(self.schema_view(), qry_opt->Some_0, plaintexts_view(plaintexts@)) is Some),
            qry_opt is Some && r is Ok ==> rel_view(r->Ok_0)
                == finish_spec(self.schema_view(), qry_opt->Some_0, plaintexts_view(plaintexts@))->Some_0,
    {
        let q = match qry_opt {
            None => {
                let e = Relation::empty_rel();
                assert(rel_view(e) =~= (Seq::<Seq<char>>::empty(), Seq::<Seq<Seq<char>>>::empty()));
                return Ok(e);
            },
            Some(q) => q,
        };
        let ghost pv = plaintexts_view(plaintexts@);
        let none: Vec<String> = Vec::new();
        assert(strs_view(none@) =~= Seq::<Seq<char>>::empty());
        let (ats_all, _) = self.get_ats_from_qry(q, &none);
        let remaining = self.get_remaining_joins(q);
        let true_proj = self.get_true_projection(q);
        let ghost ts = ats_of(self.schema_view(), *q, Seq::empty()).0;
        if ats_all.len() != plaintexts.len() {
            return Err(FinishError::RowLength);
        }
        let ghost built = Seq::new(ts.len(), |i: int| (ts[i], decode_rows(pv[i], ts[i].len())->Some_0));
        let mut rels: Vec<Relation> = Vec::new();
        let mut i: usize = 0;
        while i < ats_all.len()
            invariant
                i <= ats_all@.len(),
                ats_all@.len() == plaintexts@.len(),
                *qry_opt == Some(*q),
                ts == ats_of(self.schema_view(), *q, Seq::empty()).0,
                ts == table_view(ats_all@),
                pv == plaintexts_view(plaintexts@),
                built == Seq::new(ts.len(), |i: int| (ts[i], decode_rows(pv[i], ts[i].len())->Some_0)),
                forall|k: int| 0 <= k < i ==> (#[trigger] decode_rows(pv[k], ts[k].len())) is Some,
                rels@.len() == i,
                forall|k: int| 0 <= k < i ==> (#[trigger] rels@[k]).wf(),
                forall|k: int| 0 <= k < i ==> rel_view(#[trigger] rels@[k]) == built[k],
            decreases ats_all@.len() - i,
        {
            assert(ts[i as int] == strs_view(ats_all@[i as int]@));
            assert(pv[i as int] == bytes_view(plaintexts@[i as int]@));
            let rel = match decode_relation(copy_strings(&ats_all[i]), &plaintexts[i]) {
                Ok(rel) => rel,
                Err(e) => {
                    assert(decode_rows(pv[i as int], ts[i as int].len()) is None);
                    return Err(e);
                },
            };
            rels.push(rel);
            i += 1;
        }
        assert(rel_views(rels@) =~= built);
        let joined = join_remaining(rels, &remaining)?;
        if joined.len() != 1 {
            return Err(FinishError::Unjoined);
        }
        let mut joined = joined;
        let mut rel = joined.pop().unwrap();
        if true_proj.len() > 0 {
            let ghost before = rel_view(rel);
            rel.projection(&true_proj);
            proof {
                let tp = true_projection(self.schema_view(), *q);
                assert(strs_view(true_proj@).to_set() == tp);
                assert(tp.contains(strs_view(true_proj@)[0]));
                lemma_kept_positions_set(before.0, strs_view(true_proj@), choose_cols(tp));
                assert(rel.rows() =~= before.1.map_values(|row: Seq<Seq<char>>|
                    crate::db_structs::pick(row, crate::db_structs::kept_positions(before.0, strs_view(true_proj@)))));
            }
        } else {
            assert(strs_set(true_proj@) =~= Set::<Seq<char>>::empty());
        }
        Ok(rel)
    }
}

/// A join on a pair that is annotated in neither order is refused with
/// `NotAnnotated`, whichever profile it asks for, once both sides and both
/// attributes are known: no token is made for it.
pub proof fn lemma_unannotated_join_rejected(schema: SchemaView, ann: Set<(Seq<char>, Seq<char>)>,
    a1: String, a2: String, s1: HybQuery, s2: HybQuery)
    requires
        tokenize_error(schema, ann, s1) is None,
        tokenize_error(schema, ann, s2) is None,
        schema_lookup(schema, a1@) is Some,
        schema_lookup(schema, a2@) is Some,
        unannotated(ann, a1@, a2@),
    ensures
        tokenize_error(schema, ann, HybQuery::FPJoin(a1, a2, Box::new(s1), Box::new(s2))) == Some(TokenError::NotAnnotated(a1, a2)),
        tokenize_error(schema, ann, HybQuery::PPJoin(a1, a2, Box::new(s1), Box::new(s2))) == Some(TokenError::NotAnnotated(a1, a2)),
{
}

/// A join whose two sides read a common relation, or whose attributes both
/// belong to one relation, is refused with `SelfJoin` once both sides and
/// both attributes are known and the pair is annotated: no token is made.
pub proof fn lemma_self_join_rejected(schema: SchemaView, ann: Set<(Seq<char>, Seq<char>)>,
    a1: String, a2: String, s1: HybQuery, s2: HybQuery)
    requires
        tokenize_error(schema, ann, s1) is None,
        tokenize_error(schema, ann, s2) is None,
        schema_lookup(schema, a1@) is Some,
        schema_lookup(schema, a2@) is Some,
        !unannotated(ann, a1@, a2@),
        share_rel(query_rels(s1), query_rels(s2))
            || schema_lookup(schema, a1@)->Some_0.0 == schema_lookup(schema, a2@)->Some_0.0,
    ensures
        tokenize_error(schema, ann, HybQuery::FPJoin(a1, a2, Box::new(s1), Box::new(s2))) == Some(TokenError::SelfJoin(a1)),
        tokenize_error(schema, ann, HybQuery::PPJoin(a1, a2, Box::new(s1), Box::new(s2))) == Some(TokenError::SelfJoin(a1)),
{
}

} // verus!
