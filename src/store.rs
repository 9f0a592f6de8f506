//! The store layout of the index: the operations one ingestion issues, a
//! model of the key-value store they act on, and the candidate finder.

use vstd::prelude::*;
use crate::digest::{digest_error, make_rolling_windows, window_keys, DigestError};
use crate::text::{chars_of, decimal, decimal_chars, string_of, texts};

verus! {

/// A store operation, as the model sees it.
pub enum Op {
    /// Insert a member into the unordered set at a key.
    Add(Seq<char>, Seq<char>),
    /// Set a member's score in the sorted set at a key.
    Put(Seq<char>, Seq<char>, int),
    /// Add one to a member's score in the sorted set at a key.
    Incr(Seq<char>, Seq<char>),
    /// Overwrite the scalar at a key.
    Scalar(Seq<char>, Seq<char>),
}

/// A store operation to issue.
#[derive(Debug)]
pub enum StoreOp {
    SetAdd { key: String, member: String },
    SortedPut { key: String, member: String, score: u8 },
    SortedIncr { key: String, member: String },
    ScalarSet { key: String, value: String },
}

impl View for StoreOp {
    type V = Op;

    open spec fn view(&self) -> Op {
        match self {
            StoreOp::SetAdd { key, member } => Op::Add(key@, member@),
            StoreOp::SortedPut { key, member, score } => Op::Put(key@, member@, *score as int),
            StoreOp::SortedIncr { key, member } => Op::Incr(key@, member@),
            StoreOp::ScalarSet { key, value } => Op::Scalar(key@, value@),
        }
    }
}

pub open spec fn ops_view(v: Seq<StoreOp>) -> Seq<Op> {
    v.map_values(|o: StoreOp| o@)
}

/// One ingested record: the artifact's attributes and its digest.
#[derive(Debug)]
pub struct Record {
    pub inputname: String,
    pub md5: String,
    pub sha1: String,
    pub sha256: String,
    pub ssdeep: String,
    pub context: Vec<String>,
}

pub struct RecordView {
    pub inputname: Seq<char>,
    pub md5: Seq<char>,
    pub sha1: Seq<char>,
    pub sha256: Seq<char>,
    pub ssdeep: Seq<char>,
    pub context: Seq<Seq<char>>,
}

impl View for Record {
    type V = RecordView;

    open spec fn view(&self) -> RecordView {
        RecordView {
            inputname: self.inputname@,
            md5: self.md5@,
            sha1: self.sha1@,
            sha256: self.sha256@,
            ssdeep: self.ssdeep@,
            context: texts(self.context@),
        }
    }
}

pub open spec fn p_ssdeep() -> Seq<char> {
    seq!['s', 's', 'd', 'e', 'e', 'p', ':']
}

pub open spec fn p_inputname() -> Seq<char> {
    seq!['i', 'n', 'p', 'u', 't', 'n', 'a', 'm', 'e', ':']
}

pub open spec fn p_md5() -> Seq<char> {
    seq!['m', 'd', '5', ':']
}

pub open spec fn p_sha1() -> Seq<char> {
    seq!['s', 'h', 'a', '1', ':']
}

pub open spec fn p_sha256() -> Seq<char> {
    seq!['s', 'h', 'a', '2', '5', '6', ':']
}

pub open spec fn p_context() -> Seq<char> {
    seq!['c', 'o', 'n', 't', 'e', 'x', 't', ':']
}

pub open spec fn p_index() -> Seq<char> {
    seq!['i', 'n', 'd', 'e', 'x', ':']
}

pub open spec fn k_timestamp() -> Seq<char> {
    seq!['t', 'i', 'm', 'e', 's', 't', 'a', 'm', 'p']
}

/// The global index of one attribute kind: `index:<kind>`.
pub open spec fn index_key(kind: Seq<char>) -> Seq<char> {
    p_index() + kind.drop_last()
}

/// Every window key's sibling set receives the digest.
pub open spec fn publication_plan(d: Seq<char>, keys: Seq<Seq<char>>) -> Seq<Op> {
    Seq::new(keys.len(), |i: int| Op::Add(keys[i], d))
}

/// Both directions of every scored edge, in order.
pub open spec fn edge_plan(d: Seq<char>, scored: Seq<(Seq<char>, u8)>) -> Seq<Op>
    decreases scored.len(),
{
    if scored.len() == 0 {
        Seq::empty()
    } else {
        let (s, x) = scored.last();
        edge_plan(d, scored.drop_last()) + seq![Op::Put(d, s, x as int), Op::Put(s, d, x as int)]
    }
}

/// One increment for each context token, of the member `pm + token` at `key`.
pub open spec fn context_out_plan(key: Seq<char>, ctx: Seq<Seq<char>>) -> Seq<Op> {
    Seq::new(ctx.len(), |i: int| Op::Incr(key, p_context() + ctx[i]))
}

/// One increment for each context token, of `member` at `context:<token>`.
pub open spec fn context_in_plan(member: Seq<char>, ctx: Seq<Seq<char>>) -> Seq<Op> {
    Seq::new(ctx.len(), |i: int| Op::Incr(p_context() + ctx[i], member))
}

/// One increment of each context token in the context index.
pub open spec fn context_index_plan(ctx: Seq<Seq<char>>) -> Seq<Op> {
    Seq::new(ctx.len(), |i: int| Op::Incr(index_key(p_context()), ctx[i]))
}

/// Fan-out of a record in both directions, the global indices and the
/// timestamp marker.
pub open spec fn fanout_plan(r: RecordView, ts: nat) -> Seq<Op> {
    let d = r.ssdeep;
    let out = p_ssdeep() + d;
    seq![
        Op::Incr(out, p_inputname() + r.inputname),
        Op::Incr(out, p_md5() + r.md5),
        Op::Incr(out, p_sha1() + r.sha1),
        Op::Incr(out, p_sha256() + r.sha256),
    ] + context_out_plan(out, r.context) + context_in_plan(d, r.context) + seq![
        Op::Incr(p_inputname() + r.inputname, d),
        Op::Incr(p_md5() + r.md5, d),
        Op::Incr(p_sha1() + r.sha1, d),
        Op::Incr(p_sha256() + r.sha256, d),
        Op::Incr(index_key(p_inputname()), r.inputname),
        Op::Incr(index_key(p_ssdeep()), d),
        Op::Incr(index_key(p_md5()), r.md5),
        Op::Incr(index_key(p_sha1()), r.sha1),
        Op::Incr(index_key(p_sha256()), r.sha256),
    ] + context_index_plan(r.context) + seq![Op::Scalar(k_timestamp(), decimal(ts))]
}

/// What a record's ingestion writes once its candidates are scored.
pub open spec fn record_plan(r: RecordView, scored: Seq<(Seq<char>, u8)>, ts: nat) -> Seq<Op> {
    edge_plan(r.ssdeep, scored) + fanout_plan(r, ts)
}

/// The union of the sibling sets read, without the digest itself.
pub open spec fn candidate_set(d: Seq<char>, reads: Seq<Seq<Seq<char>>>) -> Set<Seq<char>> {
    Set::new(|m: Seq<char>| m != d && exists|i: int, j: int| 0 <= i < reads.len() && 0 <= j < reads[i].len() && #[trigger] reads[i][j] == m)
}

fn concat_chars(a: &Vec<char>, b: &String) -> (r: String)
    ensures
        r@ == a@ + b@,
{
    let mut v: Vec<char> = a.clone();
    let w = chars_of(b.as_str());
    let mut i: usize = 0;
    while i < w.len()
        invariant
            i <= w@.len(),
            v@ == a@ + w@.take(i as int),
        decreases w.len() - i,
    {
        v.push(w[i]);
        proof {
            assert(w@.take(i + 1) =~= w@.take(i as int).push(w@[i as int]));
            assert(a@ + w@.take(i + 1) =~= (a@ + w@.take(i as int)).push(w@[i as int]));
        }
        i = i + 1;
    }
    proof {
        assert(w@.take(w@.len() as int) =~= w@);
    }
    string_of(&v)
}

/// The set-add operations that publish a digest under its window keys.
pub fn publication_ops(ssdeep: &String, keys: &Vec<String>) -> (r: Vec<StoreOp>)
    ensures
        ops_view(r@) == publication_plan(ssdeep@, texts(keys@)),
{
    let mut r: Vec<StoreOp> = Vec::new();
    let mut i: usize = 0;
    while i < keys.len()
        invariant
            i <= keys@.len(),
            ops_view(r@) =~= publication_plan(ssdeep@, texts(keys@)).take(i as int),
        decreases keys.len() - i,
    {
        let op = StoreOp::SetAdd { key: keys[i].clone(), member: ssdeep.clone() };
        let ghost before = r@;
        r.push(op);
        proof {
            assert(ops_view(r@) =~= ops_view(before).push(op@));
            assert(publication_plan(ssdeep@, texts(keys@)).take(i + 1) =~= publication_plan(ssdeep@, texts(keys@)).take(i as int).push(op@));
        }
        i = i + 1;
    }
    r
}

/// The texts of each sibling set read.
pub open spec fn reads_view(v: Seq<Vec<String>>) -> Seq<Seq<Seq<char>>> {
    v.map_values(|x: Vec<String>| texts(x@))
}

fn contains_text(v: &Vec<String>, x: &String) -> (r: bool)
    ensures
        r == texts(v@).contains(x@),
{
    let mut i: usize = 0;
    while i < v.len()
        invariant
            i <= v@.len(),
            forall|j: int| 0 <= j < i ==> v@[j]@ != x@,
        decreases v.len() - i,
    {
        if v[i] == *x {
            proof {
                assert(texts(v@)[i as int] == x@);
            }
            return true;
        }
        i = i + 1;
    }
    proof {
        if texts(v@).contains(x@) {
            let j = choose|j: int| 0 <= j < texts(v@).len() && texts(v@)[j] == x@;
            assert(v@[j]@ == x@);
        }
    }
    false
}

/// The candidate finder: every digest of the sibling sets read, once
/// each, without `ssdeep_hash` itself.
pub fn get_similar_ssdeep_sets(ssdeep_hash: &String, siblings: &Vec<Vec<String>>) -> (r: Vec<String>)
    ensures
        texts(r@).no_duplicates(),
        texts(r@).to_set() == candidate_set(ssdeep_hash@, reads_view(siblings@)),
{
    let ghost d = ssdeep_hash@;
    let ghost reads = reads_view(siblings@);
    let mut out: Vec<String> = Vec::new();
    let mut i: usize = 0;
    while i < siblings.len()
        invariant
            i <= siblings@.len(),
            reads == reads_view(siblings@),
            d == ssdeep_hash@,
            texts(out@).no_duplicates(),
            forall|m: Seq<char>| #[trigger] texts(out@).contains(m) ==> candidate_set(d, reads).contains(m),
            forall|a: int, b: int| 0 <= a < i && 0 <= b < reads[a].len() && reads[a][b] != d ==> texts(out@).contains(#[trigger] reads[a][b]),
        decreases siblings.len() - i,
    {
        let set = &siblings[i];
        proof {
            assert(reads[i as int] == texts(set@));
        }
        let mut j: usize = 0;
        while j < set.len()
            invariant
                i < siblings@.len(),
                j <= set@.len(),
                set == siblings@[i as int],
                reads == reads_view(siblings@),
                reads[i as int] == texts(set@),
                d == ssdeep_hash@,
                texts(out@).no_duplicates(),
                forall|m: Seq<char>| #[trigger] texts(out@).contains(m) ==> candidate_set(d, reads).contains(m),
                forall|a: int, b: int| 0 <= a < i && 0 <= b < reads[a].len() && reads[a][b] != d ==> texts(out@).contains(#[trigger] reads[a][b]),
                forall|b: int| 0 <= b < j && reads[i as int][b] != d ==> texts(out@).contains(#[trigger] reads[i as int][b]),
            decreases set.len() - j,
        {
            let m = &set[j];
            proof {
                assert(reads[i as int][j as int] == m@);
            }
            if !(*m == *ssdeep_hash) && !contains_text(&out, m) {
                let ghost before = texts(out@);
                assert(forall|m: Seq<char>| #[trigger] before.contains(m) ==> candidate_set(d, reads).contains(m));
                out.push(m.clone());
                proof {
                    assert(texts(out@) =~= before.push(m@));
                    assert(candidate_set(d, reads).contains(m@));
                    assert forall|x: Seq<char>| #[trigger] texts(out@).contains(x) implies candidate_set(d, reads).contains(x) by {
                        if x != m@ {
                            let k = choose|k: int| 0 <= k < texts(out@).len() && texts(out@)[k] == x;
                            assert(before[k] == x);
                            assert(before.contains(x));
                        }
                    }
                    assert forall|a: int, b: int| 0 <= a < i && 0 <= b < reads[a].len() && reads[a][b] != d implies texts(out@).contains(#[trigger] reads[a][b]) by {
                        let k = choose|k: int| 0 <= k < before.len() && before[k] == reads[a][b];
                        assert(texts(out@)[k] == reads[a][b]);
                    }
                    assert forall|b: int| 0 <= b < j + 1 && reads[i as int][b] != d implies texts(out@).contains(#[trigger] reads[i as int][b]) by {
                        if b < j {
                            let k = choose|k: int| 0 <= k < before.len() && before[k] == reads[i as int][b];
                            assert(texts(out@)[k] == reads[i as int][b]);
                        } else {
                            assert(texts(out@)[before.len() as int] == m@);
                        }
                    }
                }
            }
            j = j + 1;
        }
        i = i + 1;
    }
    proof {
        assert forall|m: Seq<char>| candidate_set(d, reads).contains(m) implies #[trigger] texts(out@).to_set().contains(m) by {
            let (a, b) = choose|a: int, b: int| 0 <= a < reads.len() && 0 <= b < reads[a].len() && #[trigger] reads[a][b] == m;
            assert(texts(out@).contains(reads[a][b]));
        }
        assert(texts(out@).to_set() =~= candidate_set(d, reads));
    }
    out
}

/// The scored candidates as texts and scores.
pub open spec fn scored_view(v: Seq<(String, u8)>) -> Seq<(Seq<char>, u8)> {
    v.map_values(|p: (String, u8)| (p.0@, p.1))
}

fn chars_ssdeep() -> (r: Vec<char>)
    ensures
        r@ == p_ssdeep(),
{
    let r = vec!['s', 's', 'd', 'e', 'e', 'p', ':'];
    proof {
        assert(r@ =~= p_ssdeep());
    }
    r
}

fn chars_inputname() -> (r: Vec<char>)
    ensures
        r@ == p_inputname(),
{
    let r = vec!['i', 'n', 'p', 'u', 't', 'n', 'a', 'm', 'e', ':'];
    proof {
        assert(r@ =~= p_inputname());
    }
    r
}

fn chars_md5() -> (r: Vec<char>)
    ensures
        r@ == p_md5(),
{
    let r = vec!['m', 'd', '5', ':'];
    proof {
        assert(r@ =~= p_md5());
    }
    r
}

fn chars_sha1() -> (r: Vec<char>)
    ensures
        r@ == p_sha1(),
{
    let r = vec!['s', 'h', 'a', '1', ':'];
    proof {
        assert(r@ =~= p_sha1());
    }
    r
}

fn chars_sha256() -> (r: Vec<char>)
    ensures
        r@ == p_sha256(),
{
    let r = vec!['s', 'h', 'a', '2', '5', '6', ':'];
    proof {
        assert(r@ =~= p_sha256());
    }
    r
}

fn chars_context() -> (r: Vec<char>)
    ensures
        r@ == p_context(),
{
    let r = vec!['c', 'o', 'n', 't', 'e', 'x', 't', ':'];
    proof {
        assert(r@ =~= p_context());
    }
    r
}

/// The key `index:<kind>` for a kind prefix `<kind>:`.
fn index_of(kind: &Vec<char>) -> (r: String)
    requires
        kind@.len() > 0,
    ensures
        r@ == index_key(kind@),
{
    let mut v = vec!['i', 'n', 'd', 'e', 'x', ':'];
    proof {
        assert(v@ =~= p_index());
    }
    let n: usize = kind.len() - 1;
    let mut i: usize = 0;
    while i < n
        invariant
            n == kind@.len() - 1,
            i <= n,
            v@ == p_index() + kind@.take(i as int),
        decreases n - i,
    {
        v.push(kind[i]);
        proof {
            assert(kind@.take(i + 1) =~= kind@.take(i as int).push(kind@[i as int]));
            assert(p_index() + kind@.take(i + 1) =~= (p_index() + kind@.take(i as int)).push(kind@[i as int]));
        }
        i = i + 1;
    }
    proof {
        assert(kind@.take(i as int) =~= kind@.drop_last());
    }
    string_of(&v)
}

fn incr(key: String, member: String) -> (r: StoreOp)
    ensures
        r@ == Op::Incr(key@, member@),
{
    StoreOp::SortedIncr { key, member }
}

fn push_op(ops: &mut Vec<StoreOp>, op: StoreOp)
    ensures
        ops_view(final(ops)@) == ops_view(old(ops)@).push(op@),
{
    ops.push(op);
    proof {
        assert(ops_view(final(ops)@) =~= ops_view(old(ops)@).push(op@));
    }
}

/// Both directions of every scored edge of `ssdeep`.
pub fn edge_ops(ssdeep: &String, scored: &Vec<(String, u8)>) -> (r: Vec<StoreOp>)
    ensures
        ops_view(r@) == edge_plan(ssdeep@, scored_view(scored@)),
{
    let mut r: Vec<StoreOp> = Vec::new();
    let mut i: usize = 0;
    proof {
        assert(scored_view(scored@).take(0) =~= Seq::<(Seq<char>, u8)>::empty());
        assert(ops_view(r@) =~= Seq::<Op>::empty());
    }
    while i < scored.len()
        invariant
            i <= scored@.len(),
            ops_view(r@) == edge_plan(ssdeep@, scored_view(scored@).take(i as int)),
        decreases scored.len() - i,
    {
        let (sib, score) = (&scored[i].0, scored[i].1);
        proof {
            let t = scored_view(scored@).take(i + 1);
            assert(t.drop_last() =~= scored_view(scored@).take(i as int));
            assert(t.last() == (sib@, score));
        }
        push_op(&mut r, StoreOp::SortedPut { key: ssdeep.clone(), member: sib.clone(), score });
        push_op(&mut r, StoreOp::SortedPut { key: sib.clone(), member: ssdeep.clone(), score });
        proof {
            let t = scored_view(scored@).take(i + 1);
            assert(ops_view(r@) =~= edge_plan(ssdeep@, t));
        }
        i = i + 1;
    }
    proof {
        assert(scored_view(scored@).take(i as int) =~= scored_view(scored@));
    }
    r
}

fn push_context_out(ops: &mut Vec<StoreOp>, key: &String, ctx: &Vec<String>)
    ensures
        ops_view(final(ops)@) == ops_view(old(ops)@) + context_out_plan(key@, texts(ctx@)),
{
    let ghost start = ops_view(ops@);
    let pc = chars_context();
    let mut i: usize = 0;
    while i < ctx.len()
        invariant
            i <= ctx@.len(),
            pc@ == p_context(),
            ops_view(ops@) =~= start + context_out_plan(key@, texts(ctx@)).take(i as int),
        decreases ctx.len() - i,
    {
        let member = concat_chars(&pc, &ctx[i]);
        let op = incr(key.clone(), member);
        push_op(ops, op);
        proof {
            assert(context_out_plan(key@, texts(ctx@)).take(i + 1) =~= context_out_plan(key@, texts(ctx@)).take(i as int).push(op@));
        }
        i = i + 1;
    }
    proof {
        assert(context_out_plan(key@, texts(ctx@)).take(i as int) =~= context_out_plan(key@, texts(ctx@)));
    }
}

fn push_context_in(ops: &mut Vec<StoreOp>, member: &String, ctx: &Vec<String>)
    ensures
        ops_view(final(ops)@) == ops_view(old(ops)@) + context_in_plan(member@, texts(ctx@)),
{
    let ghost start = ops_view(ops@);
    let pc = chars_context();
    let mut i: usize = 0;
    while i < ctx.len()
        invariant
            i <= ctx@.len(),
            pc@ == p_context(),
            ops_view(ops@) =~= start + context_in_plan(member@, texts(ctx@)).take(i as int),
        decreases ctx.len() - i,
    {
        let key = concat_chars(&pc, &ctx[i]);
        let op = incr(key, member.clone());
        push_op(ops, op);
        proof {
            assert(context_in_plan(member@, texts(ctx@)).take(i + 1) =~= context_in_plan(member@, texts(ctx@)).take(i as int).push(op@));
        }
        i = i + 1;
    }
    proof {
        assert(context_in_plan(member@, texts(ctx@)).take(i as int) =~= context_in_plan(member@, texts(ctx@)));
    }
}

fn push_context_index(ops: &mut Vec<StoreOp>, ctx: &Vec<String>)
    ensures
        ops_view(final(ops)@) == ops_view(old(ops)@) + context_index_plan(texts(ctx@)),
{
    let ghost start = ops_view(ops@);
    let key = index_of(&chars_context());
    let mut i: usize = 0;
    while i < ctx.len()
        invariant
            i <= ctx@.len(),
            key@ == index_key(p_context()),
            ops_view(ops@) =~= start + context_index_plan(texts(ctx@)).take(i as int),
        decreases ctx.len() - i,
    {
        let op = incr(key.clone(), ctx[i].clone());
        push_op(ops, op);
        proof {
            assert(context_index_plan(texts(ctx@)).take(i + 1) =~= context_index_plan(texts(ctx@)).take(i as int).push(op@));
        }
        i = i + 1;
    }
    proof {
        assert(context_index_plan(texts(ctx@)).take(i as int) =~= context_index_plan(texts(ctx@)));
    }
}

/// Appends the fan-out, global-index and timestamp writes of one record.
fn push_fanout(r: &mut Vec<StoreOp>, record: &Record, timestamp: u128)
    ensures
        ops_view(final(r)@) == ops_view(old(r)@) + fanout_plan(record@, timestamp as nat),
{
    let ghost start = ops_view(r@);
    let d = &record.ssdeep;
    let pi = chars_inputname();
    let pm = chars_md5();
    let p1 = chars_sha1();
    let p2 = chars_sha256();
    let out = concat_chars(&chars_ssdeep(), d);
    let k_name = concat_chars(&pi, &record.inputname);
    let k_md5 = concat_chars(&pm, &record.md5);
    let k_sha1 = concat_chars(&p1, &record.sha1);
    let k_sha256 = concat_chars(&p2, &record.sha256);
    push_op(r, incr(out.clone(), k_name.clone()));
    push_op(r, incr(out.clone(), k_md5.clone()));
    push_op(r, incr(out.clone(), k_sha1.clone()));
    push_op(r, incr(out.clone(), k_sha256.clone()));
    let ghost a = ops_view(r@);
    push_context_out(r, &out, &record.context);
    push_context_in(r, d, &record.context);
    let ghost b = ops_view(r@);
    push_op(r, incr(k_name, d.clone()));
    push_op(r, incr(k_md5, d.clone()));
    push_op(r, incr(k_sha1, d.clone()));
    push_op(r, incr(k_sha256, d.clone()));
    push_op(r, incr(index_of(&pi), record.inputname.clone()));
    push_op(r, incr(index_of(&chars_ssdeep()), d.clone()));
    push_op(r, incr(index_of(&pm), record.md5.clone()));
    push_op(r, incr(index_of(&p1), record.sha1.clone()));
    push_op(r, incr(index_of(&p2), record.sha256.clone()));
    let ghost c = ops_view(r@);
    push_context_index(r, &record.context);
    let ts = string_of(&decimal_chars(timestamp));
    let sv = vec!['t', 'i', 'm', 'e', 's', 't', 'a', 'm', 'p'];
    proof {
        assert(sv@ =~= k_timestamp());
    }
    let stamp = string_of(&sv);
    push_op(r, StoreOp::ScalarSet { key: stamp, value: ts });
    proof {
        assert(ops_view(r@) =~= start + fanout_plan(record@, timestamp as nat));
    }
}

/// Everything one record's ingestion writes once its candidates are
/// scored: both directions of each edge, then the fan-out, the global
/// indices and the timestamp.
pub fn add_data(record: &Record, scored: &Vec<(String, u8)>, timestamp: u128) -> (r: Vec<StoreOp>)
    ensures
        ops_view(r@) == record_plan(record@, scored_view(scored@), timestamp as nat),
{
    let mut r = edge_ops(&record.ssdeep, scored);
    push_fanout(&mut r, record, timestamp);
    r
}

/// The candidates that the comparator scored, each with its score; those
/// it rejected are dropped.
pub open spec fn keep_scored(names: Seq<Seq<char>>, scores: Seq<Option<u8>>) -> Seq<(Seq<char>, u8)>
    decreases names.len(),
{
    if names.len() == 0 || names.len() != scores.len() {
        Seq::empty()
    } else {
        let rest = keep_scored(names.drop_last(), scores.drop_last());
        match scores.last() {
            Some(x) => rest.push((names.last(), x)),
            None => rest,
        }
    }
}

/// Pairs each candidate with its score, dropping those the comparator
/// rejected.
pub fn score_candidates(candidates: &Vec<String>, scores: &Vec<Option<u8>>) -> (r: Vec<(String, u8)>)
    requires
        candidates@.len() == scores@.len(),
    ensures
        scored_view(r@) == keep_scored(texts(candidates@), scores@),
{
    let mut r: Vec<(String, u8)> = Vec::new();
    let mut i: usize = 0;
    proof {
        assert(scored_view(r@) =~= Seq::<(Seq<char>, u8)>::empty());
    }
    while i < candidates.len()
        invariant
            i <= candidates@.len(),
            candidates@.len() == scores@.len(),
            scored_view(r@) == keep_scored(texts(candidates@).take(i as int), scores@.take(i as int)),
        decreases candidates.len() - i,
    {
        proof {
            assert(texts(candidates@).take(i + 1).drop_last() =~= texts(candidates@).take(i as int));
            assert(scores@.take(i + 1).drop_last() =~= scores@.take(i as int));
            assert(texts(candidates@).take(i + 1).last() == candidates@[i as int]@);
            assert(scores@.take(i + 1).last() == scores@[i as int]);
        }
        match scores[i] {
            Some(x) => {
                let ghost before = r@;
                r.push((candidates[i].clone(), x));
                proof {
                    assert(scored_view(r@) =~= scored_view(before).push((candidates@[i as int]@, x)));
                }
            },
            None => {},
        }
        i = i + 1;
    }
    proof {
        assert(texts(candidates@).take(i as int) =~= texts(candidates@));
        assert(scores@.take(i as int) =~= scores@);
    }
    r
}

/// The first step of one record's ingestion: the window keys of its digest
/// and the operations that publish the digest under them.
pub struct IngestStart {
    pub keys: Vec<String>,
    pub ops: Vec<StoreOp>,
}

/// Starts a record's ingestion. A malformed digest ends it here, with the
/// reason and nothing to write; the driver then goes on with the next
/// record. Otherwise the publication comes first, and the sibling sets of
/// the keys are read after it.
pub fn ingest_start(record: &Record) -> (r: Result<IngestStart, DigestError>)
    ensures
        match r {
            Ok(start) => {
                &&& window_keys(record.ssdeep@) == Some(texts(start.keys@))
                &&& ops_view(start.ops@) == publication_plan(record.ssdeep@, texts(start.keys@))
            },
            Err(e) => window_keys(record.ssdeep@) is None && e == digest_error(record.ssdeep@),
        },
{
    match make_rolling_windows(&record.ssdeep) {
        Ok(keys) => {
            let ops = publication_ops(&record.ssdeep, &keys);
            Ok(IngestStart { keys, ops })
        },
        Err(e) => Err(e),
    }
}

/// Finishes a record's ingestion once its candidates, found from the sibling
/// sets read, have each been put to the comparator: the edges of those it
/// scored, then the fan-out, the global indices and the timestamp.
pub fn ingest_finish(
    record: &Record,
    candidates: &Vec<String>,
    scores: &Vec<Option<u8>>,
    timestamp: u128,
) -> (r: Vec<StoreOp>)
    requires
        candidates@.len() == scores@.len(),
    ensures
        ops_view(r@) == record_plan(
            record@,
            keep_scored(texts(candidates@), scores@),
            timestamp as nat,
        ),
{
    let scored = score_candidates(candidates, scores);
    add_data(record, &scored, timestamp)
}

} // verus!
