//! A model of the key-value store, the effect of each operation on it,
//! and what ingestion keeps true of it.

use vstd::prelude::*;
use crate::digest::{is_digit, window_keys};
use crate::text::split_on;
use crate::store::{
    candidate_set, keep_scored, context_in_plan, context_index_plan, context_out_plan, edge_plan, fanout_plan, index_key,
    p_context, p_inputname, p_md5, p_sha1, p_sha256, p_ssdeep, publication_plan, record_plan, Op,
    RecordView,
};

verus! {

/// The store: unordered sets, sorted sets of scored members, and scalars.
pub struct StoreModel {
    pub sets: Map<Seq<char>, Set<Seq<char>>>,
    pub sorted: Map<Seq<char>, Map<Seq<char>, int>>,
    pub scalars: Map<Seq<char>, Seq<char>>,
}

/// The unordered set at `k`; a missing key reads as empty.
pub open spec fn members(st: StoreModel, k: Seq<char>) -> Set<Seq<char>> {
    if st.sets.contains_key(k) {
        st.sets[k]
    } else {
        Set::empty()
    }
}

/// The sorted set at `k`; a missing key reads as empty.
pub open spec fn zset(st: StoreModel, k: Seq<char>) -> Map<Seq<char>, int> {
    if st.sorted.contains_key(k) {
        st.sorted[k]
    } else {
        Map::empty()
    }
}

/// The score of `m` at `k`; a missing member counts as zero.
pub open spec fn count(st: StoreModel, k: Seq<char>, m: Seq<char>) -> int {
    if zset(st, k).contains_key(m) {
        zset(st, k)[m]
    } else {
        0
    }
}

pub open spec fn apply_op(st: StoreModel, op: Op) -> StoreModel {
    match op {
        Op::Add(k, m) => StoreModel { sets: st.sets.insert(k, members(st, k).insert(m)), ..st },
        Op::Put(k, m, x) => StoreModel { sorted: st.sorted.insert(k, zset(st, k).insert(m, x)), ..st },
        Op::Incr(k, m) => StoreModel {
            sorted: st.sorted.insert(k, zset(st, k).insert(m, count(st, k, m) + 1)),
            ..st
        },
        Op::Scalar(k, v) => StoreModel { scalars: st.scalars.insert(k, v), ..st },
    }
}

/// The store after the operations, issued in order.
pub open spec fn apply_all(st: StoreModel, ops: Seq<Op>) -> StoreModel
    decreases ops.len(),
{
    if ops.len() == 0 {
        st
    } else {
        apply_op(apply_all(st, ops.drop_last()), ops.last())
    }
}

/// The store after one record's ingestion: publication under its window
/// keys, then edges to its scored candidates, fan-out, indices, timestamp.
pub open spec fn ingest(
    st: StoreModel,
    r: RecordView,
    keys: Seq<Seq<char>>,
    scored: Seq<(Seq<char>, u8)>,
    ts: nat,
) -> StoreModel {
    apply_all(apply_all(st, publication_plan(r.ssdeep, keys)), record_plan(r, scored, ts))
}

/// A key that can name a digest's edge set: every digest starts with the
/// digits of its blocksize, and no other key of the layout does.
pub open spec fn digest_led(k: Seq<char>) -> bool {
    k.len() > 0 && is_digit(k[0])
}

/// No digest is a member of its own edge set.
pub open spec fn no_self_edge(st: StoreModel) -> bool {
    forall|k: Seq<char>| digest_led(k) ==> !(#[trigger] zset(st, k)).contains_key(k)
}

/// Every edge between digests is stored in both directions with one score.
pub open spec fn symmetric(st: StoreModel) -> bool {
    forall|a: Seq<char>, b: Seq<char>|
        digest_led(a) && digest_led(b) && #[trigger] zset(st, a).contains_key(b) ==> zset(
            st,
            b,
        ).contains_key(a) && zset(st, b)[a] == zset(st, a)[b]
}

/// An operation that writes into no digest's edge set.
pub open spec fn spares_digests(op: Op) -> bool {
    match op {
        Op::Put(k, _, _) => !digest_led(k),
        Op::Incr(k, _) => !digest_led(k),
        _ => true,
    }
}

pub proof fn lemma_apply_concat(st: StoreModel, a: Seq<Op>, b: Seq<Op>)
    ensures
        apply_all(st, a + b) == apply_all(apply_all(st, a), b),
    decreases b.len(),
{
    if b.len() == 0 {
        assert(a + b =~= a);
    } else {
        assert((a + b).drop_last() =~= a + b.drop_last());
        lemma_apply_concat(st, a, b.drop_last());
    }
}

/// Operations that spare every digest leave every edge set as it was.
pub proof fn lemma_frame(st: StoreModel, ops: Seq<Op>)
    requires
        forall|i: int| 0 <= i < ops.len() ==> spares_digests(#[trigger] ops[i]),
    ensures
        forall|k: Seq<char>| digest_led(k) ==> #[trigger] zset(apply_all(st, ops), k) == zset(st, k),
    decreases ops.len(),
{
    if ops.len() > 0 {
        lemma_frame(st, ops.drop_last());
        let prev = apply_all(st, ops.drop_last());
        let op = ops.last();
        assert(spares_digests(ops[ops.len() - 1]));
        assert forall|k: Seq<char>| digest_led(k) implies #[trigger] zset(apply_op(prev, op), k)
            == zset(prev, k) by {
            match op {
                Op::Put(k2, m, x) => {
                    assert(k2 != k);
                },
                Op::Incr(k2, m) => {
                    assert(k2 != k);
                },
                _ => {},
            }
        }
    }
}

proof fn lemma_prefixed_spares(p: Seq<char>, v: Seq<char>)
    requires
        p.len() > 0,
        !is_digit(p[0]),
    ensures
        !digest_led(p + v),
{
    assert((p + v)[0] == p[0]);
}

proof fn lemma_fanout_spares(r: RecordView, ts: nat)
    ensures
        forall|i: int| 0 <= i < fanout_plan(r, ts).len() ==> spares_digests(#[trigger] fanout_plan(r, ts)[i]),
{
    let d = r.ssdeep;
    lemma_prefixed_spares(p_ssdeep(), d);
    lemma_prefixed_spares(p_inputname(), r.inputname);
    lemma_prefixed_spares(p_md5(), r.md5);
    lemma_prefixed_spares(p_sha1(), r.sha1);
    lemma_prefixed_spares(p_sha256(), r.sha256);
    let ix = seq!['i', 'n', 'd', 'e', 'x', ':'];
    lemma_prefixed_spares(ix, p_inputname().drop_last());
    lemma_prefixed_spares(ix, p_ssdeep().drop_last());
    lemma_prefixed_spares(ix, p_md5().drop_last());
    lemma_prefixed_spares(ix, p_sha1().drop_last());
    lemma_prefixed_spares(ix, p_sha256().drop_last());
    lemma_prefixed_spares(ix, p_context().drop_last());
    assert forall|j: int| 0 <= j < r.context.len() implies !digest_led(p_context() + r.context[j]) by {
        lemma_prefixed_spares(p_context(), r.context[j]);
    }
    let a = context_out_plan(p_ssdeep() + d, r.context);
    let b = context_in_plan(d, r.context);
    let c = context_index_plan(r.context);
    assert(forall|i: int| 0 <= i < a.len() ==> spares_digests(#[trigger] a[i]));
    assert(forall|i: int| 0 <= i < b.len() ==> spares_digests(#[trigger] b[i]));
    assert(forall|i: int| 0 <= i < c.len() ==> spares_digests(#[trigger] c[i]));
    let f = fanout_plan(r, ts);
    assert forall|i: int| 0 <= i < f.len() implies spares_digests(#[trigger] f[i]) by {
        let s1 = seq![
            Op::Incr(p_ssdeep() + d, p_inputname() + r.inputname),
            Op::Incr(p_ssdeep() + d, p_md5() + r.md5),
            Op::Incr(p_ssdeep() + d, p_sha1() + r.sha1),
            Op::Incr(p_ssdeep() + d, p_sha256() + r.sha256),
        ];
        let s2 = seq![
            Op::Incr(p_inputname() + r.inputname, d),
            Op::Incr(p_md5() + r.md5, d),
            Op::Incr(p_sha1() + r.sha1, d),
            Op::Incr(p_sha256() + r.sha256, d),
            Op::Incr(index_key(p_inputname()), r.inputname),
            Op::Incr(index_key(p_ssdeep()), d),
            Op::Incr(index_key(p_md5()), r.md5),
            Op::Incr(index_key(p_sha1()), r.sha1),
            Op::Incr(index_key(p_sha256()), r.sha256),
        ];
        let s3 = seq![Op::Scalar(seq!['t', 'i', 'm', 'e', 's', 't', 'a', 'm', 'p'], crate::text::decimal(ts))];
        assert(f == s1 + a + b + s2 + c + s3);
        assert(forall|i: int| 0 <= i < s1.len() ==> spares_digests(#[trigger] s1[i]));
        assert(forall|i: int| 0 <= i < s2.len() ==> spares_digests(#[trigger] s2[i]));
    }
}

proof fn lemma_publication_spares(d: Seq<char>, keys: Seq<Seq<char>>)
    ensures
        forall|i: int| 0 <= i < publication_plan(d, keys).len() ==> spares_digests(#[trigger] publication_plan(d, keys)[i]),
{
}

proof fn lemma_apply_pair(st: StoreModel, o1: Op, o2: Op)
    ensures
        apply_all(st, seq![o1, o2]) == apply_op(apply_op(st, o1), o2),
{
    assert(seq![o1, o2].drop_last() =~= seq![o1]);
    let one = seq![o1];
    assert(one.drop_last() =~= Seq::<Op>::empty());
    assert(one.last() == o1);
    assert(apply_all(st, Seq::<Op>::empty()) == st);
    assert(apply_all(st, one) == apply_op(apply_all(st, one.drop_last()), one.last()));
    assert(apply_all(st, one) == apply_op(st, o1));
    let two = seq![o1, o2];
    assert(two.last() == o2);
    assert(apply_all(st, two) == apply_op(apply_all(st, two.drop_last()), two.last()));
}

proof fn lemma_edges_no_self(st: StoreModel, d: Seq<char>, scored: Seq<(Seq<char>, u8)>)
    requires
        no_self_edge(st),
        forall|i: int| 0 <= i < scored.len() ==> (#[trigger] scored[i]).0 != d,
    ensures
        no_self_edge(apply_all(st, edge_plan(d, scored))),
    decreases scored.len(),
{
    if scored.len() > 0 {
        let p = scored.drop_last();
        assert forall|i: int| 0 <= i < p.len() implies (#[trigger] p[i]).0 != d by {
            assert(p[i] == scored[i]);
        }
        lemma_edges_no_self(st, d, p);
        let (s, x) = scored.last();
        assert(scored[scored.len() - 1].0 != d);
        let pair = seq![Op::Put(d, s, x as int), Op::Put(s, d, x as int)];
        lemma_apply_concat(st, edge_plan(d, p), pair);
        let s0 = apply_all(st, edge_plan(d, p));
        lemma_apply_pair(s0, Op::Put(d, s, x as int), Op::Put(s, d, x as int));
        let s1 = apply_op(s0, Op::Put(d, s, x as int));
        let s2 = apply_op(s1, Op::Put(s, d, x as int));
        assert forall|k: Seq<char>| digest_led(k) implies !(#[trigger] zset(s2, k)).contains_key(k) by {
            assert(!zset(s0, k).contains_key(k));
        }
    }
}

proof fn lemma_edges_symmetric(st: StoreModel, d: Seq<char>, scored: Seq<(Seq<char>, u8)>)
    requires
        symmetric(st),
    ensures
        symmetric(apply_all(st, edge_plan(d, scored))),
    decreases scored.len(),
{
    if scored.len() > 0 {
        let p = scored.drop_last();
        lemma_edges_symmetric(st, d, p);
        let (s, x) = scored.last();
        let pair = seq![Op::Put(d, s, x as int), Op::Put(s, d, x as int)];
        lemma_apply_concat(st, edge_plan(d, p), pair);
        let s0 = apply_all(st, edge_plan(d, p));
        lemma_apply_pair(s0, Op::Put(d, s, x as int), Op::Put(s, d, x as int));
        let s1 = apply_op(s0, Op::Put(d, s, x as int));
        let s2 = apply_op(s1, Op::Put(s, d, x as int));
        assert(apply_all(s0, pair) == s2);
        assert forall|a: Seq<char>, b: Seq<char>|
            digest_led(a) && digest_led(b) && #[trigger] zset(s2, a).contains_key(b) implies zset(
            s2,
            b,
        ).contains_key(a) && zset(s2, b)[a] == zset(s2, a)[b] by {
            if (a == d && b == s) || (a == s && b == d) {
            } else {
                assert(zset(s0, a).contains_key(b));
            }
        }
    }
}

/// Ingestion never makes a digest a member of its own edge set, given
/// candidates without the digest itself, as the candidate finder returns.
pub proof fn lemma_no_self_edge(
    st: StoreModel,
    r: RecordView,
    keys: Seq<Seq<char>>,
    scored: Seq<(Seq<char>, u8)>,
    ts: nat,
)
    requires
        no_self_edge(st),
        forall|i: int| 0 <= i < scored.len() ==> (#[trigger] scored[i]).0 != r.ssdeep,
    ensures
        no_self_edge(ingest(st, r, keys, scored, ts)),
{
    let s1 = apply_all(st, publication_plan(r.ssdeep, keys));
    lemma_publication_spares(r.ssdeep, keys);
    lemma_frame(st, publication_plan(r.ssdeep, keys));
    lemma_edges_no_self(s1, r.ssdeep, scored);
    let s2 = apply_all(s1, edge_plan(r.ssdeep, scored));
    lemma_fanout_spares(r, ts);
    lemma_frame(s2, fanout_plan(r, ts));
    lemma_apply_concat(s1, edge_plan(r.ssdeep, scored), fanout_plan(r, ts));
}

/// Ingestion keeps every edge between digests stored in both directions
/// with one score.
pub proof fn lemma_symmetry_kept(
    st: StoreModel,
    r: RecordView,
    keys: Seq<Seq<char>>,
    scored: Seq<(Seq<char>, u8)>,
    ts: nat,
)
    requires
        symmetric(st),
    ensures
        symmetric(ingest(st, r, keys, scored, ts)),
{
    let s1 = apply_all(st, publication_plan(r.ssdeep, keys));
    lemma_publication_spares(r.ssdeep, keys);
    lemma_frame(st, publication_plan(r.ssdeep, keys));
    lemma_edges_symmetric(s1, r.ssdeep, scored);
    let s2 = apply_all(s1, edge_plan(r.ssdeep, scored));
    lemma_fanout_spares(r, ts);
    lemma_frame(s2, fanout_plan(r, ts));
    lemma_apply_concat(s1, edge_plan(r.ssdeep, scored), fanout_plan(r, ts));
}

/// How many of the operations increment `m` at `k`.
pub open spec fn incr_count(ops: Seq<Op>, k: Seq<char>, m: Seq<char>) -> int
    decreases ops.len(),
{
    if ops.len() == 0 {
        0
    } else {
        incr_count(ops.drop_last(), k, m) + if ops.last() == Op::Incr(k, m) {
            1int
        } else {
            0int
        }
    }
}

/// The operation does not set the score of `m` at `k` outright.
pub open spec fn no_put_at(op: Op, k: Seq<char>, m: Seq<char>) -> bool {
    match op {
        Op::Put(k2, m2, _) => !(k2 == k && m2 == m),
        _ => true,
    }
}

proof fn lemma_incr_count_concat(a: Seq<Op>, b: Seq<Op>, k: Seq<char>, m: Seq<char>)
    ensures
        incr_count(a + b, k, m) == incr_count(a, k, m) + incr_count(b, k, m),
    decreases b.len(),
{
    if b.len() == 0 {
        assert(a + b =~= a);
    } else {
        assert((a + b).drop_last() =~= a + b.drop_last());
        lemma_incr_count_concat(a, b.drop_last(), k, m);
    }
}

/// Without an outright score on `m` at `k`, its count grows by the number
/// of increments.
proof fn lemma_count(st: StoreModel, ops: Seq<Op>, k: Seq<char>, m: Seq<char>)
    requires
        forall|i: int| 0 <= i < ops.len() ==> no_put_at(#[trigger] ops[i], k, m),
    ensures
        count(apply_all(st, ops), k, m) == count(st, k, m) + incr_count(ops, k, m),
    decreases ops.len(),
{
    if ops.len() > 0 {
        lemma_count(st, ops.drop_last(), k, m);
        assert(no_put_at(ops[ops.len() - 1], k, m));
    }
}

proof fn lemma_no_incr_count(ops: Seq<Op>, k: Seq<char>, m: Seq<char>)
    requires
        forall|i: int| 0 <= i < ops.len() ==> #[trigger] ops[i] != Op::Incr(k, m),
    ensures
        incr_count(ops, k, m) == 0,
    decreases ops.len(),
{
    if ops.len() > 0 {
        lemma_no_incr_count(ops.drop_last(), k, m);
        assert(ops[ops.len() - 1] != Op::Incr(k, m));
    }
}

proof fn lemma_edges_no_put(d: Seq<char>, scored: Seq<(Seq<char>, u8)>, k: Seq<char>, m: Seq<char>)
    requires
        !digest_led(k),
        digest_led(d),
        forall|i: int| 0 <= i < scored.len() ==> digest_led((#[trigger] scored[i]).0),
    ensures
        forall|i: int| 0 <= i < edge_plan(d, scored).len() ==> no_put_at(#[trigger] edge_plan(d, scored)[i], k, m),
        incr_count(edge_plan(d, scored), k, m) == 0,
    decreases scored.len(),
{
    if scored.len() > 0 {
        let p = scored.drop_last();
        assert forall|i: int| 0 <= i < p.len() implies digest_led((#[trigger] p[i]).0) by {
            assert(p[i] == scored[i]);
        }
        lemma_edges_no_put(d, p, k, m);
        let (s, x) = scored.last();
        assert(digest_led(scored[scored.len() - 1].0));
        let pair = seq![Op::Put(d, s, x as int), Op::Put(s, d, x as int)];
        lemma_no_incr_count(pair, k, m);
        lemma_incr_count_concat(edge_plan(d, p), pair, k, m);
    }
}

proof fn lemma_index_ssdeep_count(r: RecordView, ts: nat, m: Seq<char>)
    ensures
        forall|i: int| 0 <= i < fanout_plan(r, ts).len() ==> no_put_at(#[trigger] fanout_plan(r, ts)[i], index_key(p_ssdeep()), m),
        incr_count(fanout_plan(r, ts), index_key(p_ssdeep()), m) == if m == r.ssdeep {
            1int
        } else {
            0int
        },
{
    let d = r.ssdeep;
    let k = index_key(p_ssdeep());
    assert(k =~= seq!['i', 'n', 'd', 'e', 'x', ':', 's', 's', 'd', 'e', 'e', 'p']);
    let a = context_out_plan(p_ssdeep() + d, r.context);
    let b = context_in_plan(d, r.context);
    let c = context_index_plan(r.context);
    assert((p_ssdeep() + d)[0] == 's');
    assert forall|i: int| 0 <= i < a.len() implies #[trigger] a[i] != Op::Incr(k, m) by {}
    assert forall|i: int| 0 <= i < b.len() implies #[trigger] b[i] != Op::Incr(k, m) by {
        assert((p_context() + r.context[i])[0] == 'c');
    }
    assert forall|i: int| 0 <= i < c.len() implies #[trigger] c[i] != Op::Incr(k, m) by {
        assert(index_key(p_context())[6] == 'c');
    }
    lemma_no_incr_count(a, k, m);
    lemma_no_incr_count(b, k, m);
    lemma_no_incr_count(c, k, m);
    let s1 = seq![
        Op::Incr(p_ssdeep() + d, p_inputname() + r.inputname),
        Op::Incr(p_ssdeep() + d, p_md5() + r.md5),
        Op::Incr(p_ssdeep() + d, p_sha1() + r.sha1),
        Op::Incr(p_ssdeep() + d, p_sha256() + r.sha256),
    ];
    let s2a = seq![
        Op::Incr(p_inputname() + r.inputname, d),
        Op::Incr(p_md5() + r.md5, d),
        Op::Incr(p_sha1() + r.sha1, d),
        Op::Incr(p_sha256() + r.sha256, d),
        Op::Incr(index_key(p_inputname()), r.inputname),
    ];
    let s2b = seq![Op::Incr(index_key(p_ssdeep()), d)];
    let s2c = seq![
        Op::Incr(index_key(p_md5()), r.md5),
        Op::Incr(index_key(p_sha1()), r.sha1),
        Op::Incr(index_key(p_sha256()), r.sha256),
    ];
    let s3 = seq![Op::Scalar(seq!['t', 'i', 'm', 'e', 's', 't', 'a', 'm', 'p'], crate::text::decimal(ts))];
    assert((p_inputname() + r.inputname)[2] == 'p');
    assert((p_md5() + r.md5)[0] == 'm');
    assert((p_sha1() + r.sha1)[0] == 's');
    assert((p_sha256() + r.sha256)[0] == 's');
    assert(index_key(p_inputname())[6] == 'i');
    assert(index_key(p_md5())[6] == 'm');
    assert(index_key(p_sha1())[7] == 'h');
    assert(index_key(p_sha256())[7] == 'h');
    assert forall|i: int| 0 <= i < s1.len() implies #[trigger] s1[i] != Op::Incr(k, m) by {}
    assert forall|i: int| 0 <= i < s2a.len() implies #[trigger] s2a[i] != Op::Incr(k, m) by {}
    assert forall|i: int| 0 <= i < s2c.len() implies #[trigger] s2c[i] != Op::Incr(k, m) by {}
    assert forall|i: int| 0 <= i < s3.len() implies #[trigger] s3[i] != Op::Incr(k, m) by {}
    lemma_no_incr_count(s1, k, m);
    lemma_no_incr_count(s2a, k, m);
    lemma_no_incr_count(s2c, k, m);
    lemma_no_incr_count(s3, k, m);
    assert(s2b.drop_last() =~= Seq::<Op>::empty());
    assert(s2b.last() == Op::Incr(k, d));
    assert(incr_count(Seq::<Op>::empty(), k, m) == 0);
    assert(incr_count(s2b, k, m) == incr_count(s2b.drop_last(), k, m) + if s2b.last() == Op::Incr(k, m) { 1int } else { 0int });
    assert(incr_count(s2b, k, m) == if m == d { 1int } else { 0int });
    let f = fanout_plan(r, ts);
    assert(f =~= s1 + a + b + s2a + s2b + s2c + c + s3);
    lemma_incr_count_concat(s1, a, k, m);
    lemma_incr_count_concat(s1 + a, b, k, m);
    lemma_incr_count_concat(s1 + a + b, s2a, k, m);
    lemma_incr_count_concat(s1 + a + b + s2a, s2b, k, m);
    lemma_incr_count_concat(s1 + a + b + s2a + s2b, s2c, k, m);
    lemma_incr_count_concat(s1 + a + b + s2a + s2b + s2c, c, k, m);
    lemma_incr_count_concat(s1 + a + b + s2a + s2b + s2c + c, s3, k, m);
    lemma_fanout_spares(r, ts);
    assert forall|i: int| 0 <= i < f.len() implies no_put_at(#[trigger] f[i], k, m) by {
        assert(spares_digests(f[i]));
    }
}

/// Each ingestion adds one to the digest's entry in the digest index and
/// leaves every other entry as it was, given digests as edge-set keys.
pub proof fn lemma_index_ssdeep_total(
    st: StoreModel,
    r: RecordView,
    keys: Seq<Seq<char>>,
    scored: Seq<(Seq<char>, u8)>,
    ts: nat,
    m: Seq<char>,
)
    requires
        digest_led(r.ssdeep),
        forall|i: int| 0 <= i < scored.len() ==> digest_led((#[trigger] scored[i]).0),
    ensures
        count(ingest(st, r, keys, scored, ts), index_key(p_ssdeep()), m) == count(
            st,
            index_key(p_ssdeep()),
            m,
        ) + if m == r.ssdeep {
            1int
        } else {
            0int
        },
{
    let k = index_key(p_ssdeep());
    let pubs = publication_plan(r.ssdeep, keys);
    let plan = record_plan(r, scored, ts);
    assert(k[0] == 'i');
    lemma_publication_spares(r.ssdeep, keys);
    assert forall|i: int| 0 <= i < pubs.len() implies no_put_at(#[trigger] pubs[i], k, m) by {}
    assert forall|i: int| 0 <= i < pubs.len() implies #[trigger] pubs[i] != Op::Incr(k, m) by {}
    lemma_no_incr_count(pubs, k, m);
    lemma_count(st, pubs, k, m);
    lemma_edges_no_put(r.ssdeep, scored, k, m);
    lemma_index_ssdeep_count(r, ts, m);
    let e = edge_plan(r.ssdeep, scored);
    let f = fanout_plan(r, ts);
    lemma_incr_count_concat(e, f, k, m);
    assert forall|i: int| 0 <= i < plan.len() implies no_put_at(#[trigger] plan[i], k, m) by {
        if i < e.len() {
            assert(plan[i] == e[i]);
        } else {
            assert(plan[i] == f[i - e.len()]);
        }
    }
    lemma_count(apply_all(st, pubs), plan, k, m);
}

/// The store after ingesting each record of a batch, in order.
pub open spec fn ingest_all(
    st: StoreModel,
    batch: Seq<(RecordView, Seq<Seq<char>>, Seq<(Seq<char>, u8)>, nat)>,
) -> StoreModel
    decreases batch.len(),
{
    if batch.len() == 0 {
        st
    } else {
        let (r, keys, scored, ts) = batch.last();
        ingest(ingest_all(st, batch.drop_last()), r, keys, scored, ts)
    }
}

/// How many records of a batch carry the digest `d`.
pub open spec fn ingestions_of(
    batch: Seq<(RecordView, Seq<Seq<char>>, Seq<(Seq<char>, u8)>, nat)>,
    d: Seq<char>,
) -> int
    decreases batch.len(),
{
    if batch.len() == 0 {
        0
    } else {
        ingestions_of(batch.drop_last(), d) + if batch.last().0.ssdeep == d {
            1int
        } else {
            0int
        }
    }
}

/// Digests and their scored candidates all start with a blocksize digit.
pub open spec fn digest_keyed(
    batch: Seq<(RecordView, Seq<Seq<char>>, Seq<(Seq<char>, u8)>, nat)>,
) -> bool {
    forall|j: int|
        0 <= j < batch.len() ==> digest_led((#[trigger] batch[j]).0.ssdeep) && forall|i: int|
            0 <= i < batch[j].2.len() ==> digest_led((#[trigger] batch[j].2[i]).0)
}

/// Starting from a store without it, a digest's entry in the digest index
/// equals the number of ingestions that carried it.
pub proof fn lemma_index_ssdeep_equals_ingestions(
    st: StoreModel,
    batch: Seq<(RecordView, Seq<Seq<char>>, Seq<(Seq<char>, u8)>, nat)>,
    d: Seq<char>,
)
    requires
        count(st, index_key(p_ssdeep()), d) == 0,
        digest_keyed(batch),
    ensures
        count(ingest_all(st, batch), index_key(p_ssdeep()), d) == ingestions_of(batch, d),
    decreases batch.len(),
{
    if batch.len() > 0 {
        let p = batch.drop_last();
        assert(digest_keyed(p)) by {
            assert forall|j: int| 0 <= j < p.len() implies digest_led((#[trigger] p[j]).0.ssdeep)
                && forall|i: int| 0 <= i < p[j].2.len() ==> digest_led((#[trigger] p[j].2[i]).0) by {
                assert(p[j] == batch[j]);
            }
        }
        lemma_index_ssdeep_equals_ingestions(st, p, d);
        let (r, keys, scored, ts) = batch.last();
        assert(batch[batch.len() - 1] == batch.last());
        lemma_index_ssdeep_total(ingest_all(st, p), r, keys, scored, ts, d);
    }
}

/// One when the operation increments `m` at `k`, else zero.
pub open spec fn hits(o: Op, k: Seq<char>, m: Seq<char>) -> int {
    if o == Op::Incr(k, m) {
        1
    } else {
        0
    }
}

proof fn lemma_incr_count_one(o: Op, k: Seq<char>, m: Seq<char>)
    ensures
        incr_count(seq![o], k, m) == hits(o, k, m),
{
    let one = seq![o];
    assert(one.drop_last() =~= Seq::<Op>::empty());
    assert(one.last() == o);
    assert(incr_count(Seq::<Op>::empty(), k, m) == 0);
    assert(incr_count(one, k, m) == incr_count(one.drop_last(), k, m) + if one.last() == Op::Incr(k, m) { 1int } else { 0int });
}

proof fn lemma_incr_count_list(ops: Seq<Op>, k: Seq<char>, m: Seq<char>)
    requires
        ops.len() <= 9,
    ensures
        incr_count(ops, k, m) == (if ops.len() > 0 { hits(ops[0], k, m) } else { 0 }) + (if ops.len()
            > 1 { hits(ops[1], k, m) } else { 0 }) + (if ops.len() > 2 { hits(ops[2], k, m) } else { 0 })
            + (if ops.len() > 3 { hits(ops[3], k, m) } else { 0 }) + (if ops.len() > 4 { hits(ops[4], k, m) } else { 0 })
            + (if ops.len() > 5 { hits(ops[5], k, m) } else { 0 }) + (if ops.len() > 6 { hits(ops[6], k, m) } else { 0 })
            + (if ops.len() > 7 { hits(ops[7], k, m) } else { 0 }) + (if ops.len() > 8 { hits(ops[8], k, m) } else { 0 }),
    decreases ops.len(),
{
    if ops.len() > 0 {
        let p = ops.drop_last();
        lemma_incr_count_list(p, k, m);
        assert(ops =~= p + seq![ops.last()]);
        lemma_incr_count_concat(p, seq![ops.last()], k, m);
        lemma_incr_count_one(ops.last(), k, m);
    }
}

/// One of the four attribute kinds of a record with its value.
pub open spec fn is_attribute(r: RecordView, kind: Seq<char>, v: Seq<char>) -> bool {
    (kind == p_inputname() && v == r.inputname) || (kind == p_md5() && v == r.md5) || (kind
        == p_sha1() && v == r.sha1) || (kind == p_sha256() && v == r.sha256)
}

proof fn lemma_fanout_attribute_counts(r: RecordView, ts: nat, kind: Seq<char>, v: Seq<char>)
    requires
        is_attribute(r, kind, v),
    ensures
        incr_count(fanout_plan(r, ts), p_ssdeep() + r.ssdeep, kind + v) == 1,
        incr_count(fanout_plan(r, ts), kind + v, r.ssdeep) == 1,
{
    let d = r.ssdeep;
    let out = p_ssdeep() + d;
    let m = kind + v;
    let a = context_out_plan(out, r.context);
    let b = context_in_plan(d, r.context);
    let c = context_index_plan(r.context);
    let s1 = seq![
        Op::Incr(out, p_inputname() + r.inputname),
        Op::Incr(out, p_md5() + r.md5),
        Op::Incr(out, p_sha1() + r.sha1),
        Op::Incr(out, p_sha256() + r.sha256),
    ];
    let s2 = seq![
        Op::Incr(p_inputname() + r.inputname, d),
        Op::Incr(p_md5() + r.md5, d),
        Op::Incr(p_sha1() + r.sha1, d),
        Op::Incr(p_sha256() + r.sha256, d),
        Op::Incr(index_key(p_inputname()), r.inputname),
        Op::Incr(index_key(p_ssdeep()), d),
        Op::Incr(index_key(p_md5()), r.md5),
        Op::Incr(index_key(p_sha1()), r.sha1),
        Op::Incr(index_key(p_sha256()), r.sha256),
    ];
    let s3 = seq![Op::Scalar(seq!['t', 'i', 'm', 'e', 's', 't', 'a', 'm', 'p'], crate::text::decimal(ts))];
    let f = fanout_plan(r, ts);
    assert(f =~= s1 + a + b + s2 + c + s3);
    // first characters that tell the keys apart
    assert(out[0] == 's' && out[1] == 's');
    assert((p_inputname() + r.inputname)[0] == 'i' && (p_inputname() + r.inputname)[2] == 'p');
    assert((p_md5() + r.md5)[0] == 'm');
    assert((p_sha1() + r.sha1)[0] == 's' && (p_sha1() + r.sha1)[1] == 'h' && (p_sha1() + r.sha1)[3] == '1');
    assert((p_sha256() + r.sha256)[0] == 's' && (p_sha256() + r.sha256)[1] == 'h' && (p_sha256() + r.sha256)[3] == '2');
    assert(m[0] == kind[0] && m[1] == kind[1] && m[2] == kind[2] && m[3] == kind[3]);
    assert(index_key(p_inputname())[2] == 'd');
    assert(index_key(p_ssdeep())[0] == 'i');
    assert(index_key(p_md5())[0] == 'i');
    assert(index_key(p_sha1())[0] == 'i');
    assert(index_key(p_sha256())[0] == 'i');
    assert(index_key(p_context())[0] == 'i' && index_key(p_context())[2] == 'd');
    assert forall|i: int| 0 <= i < a.len() implies #[trigger] a[i] != Op::Incr(out, m) && a[i] != Op::Incr(m, d) by {
        assert((p_context() + r.context[i])[0] == 'c');
    }
    assert forall|i: int| 0 <= i < b.len() implies #[trigger] b[i] != Op::Incr(out, m) && b[i] != Op::Incr(m, d) by {
        assert((p_context() + r.context[i])[0] == 'c');
    }
    assert forall|i: int| 0 <= i < c.len() implies #[trigger] c[i] != Op::Incr(out, m) && c[i] != Op::Incr(m, d) by {}
    lemma_no_incr_count(a, out, m);
    lemma_no_incr_count(a, m, d);
    lemma_no_incr_count(b, out, m);
    lemma_no_incr_count(b, m, d);
    lemma_no_incr_count(c, out, m);
    lemma_no_incr_count(c, m, d);
    lemma_incr_count_list(s1, out, m);
    lemma_incr_count_list(s1, m, d);
    lemma_incr_count_list(s2, out, m);
    lemma_incr_count_list(s2, m, d);
    lemma_incr_count_list(s3, out, m);
    lemma_incr_count_list(s3, m, d);
    lemma_incr_count_concat(s1, a, out, m);
    lemma_incr_count_concat(s1 + a, b, out, m);
    lemma_incr_count_concat(s1 + a + b, s2, out, m);
    lemma_incr_count_concat(s1 + a + b + s2, c, out, m);
    lemma_incr_count_concat(s1 + a + b + s2 + c, s3, out, m);
    lemma_incr_count_concat(s1, a, m, d);
    lemma_incr_count_concat(s1 + a, b, m, d);
    lemma_incr_count_concat(s1 + a + b, s2, m, d);
    lemma_incr_count_concat(s1 + a + b + s2, c, m, d);
    lemma_incr_count_concat(s1 + a + b + s2 + c, s3, m, d);
}

/// One ingestion of a record adds one, on both sides of the fan-out, to
/// each of its attributes: at `ssdeep:<digest>` for `<kind>:<value>`, and
/// at `<kind>:<value>` for the digest.
pub proof fn lemma_fanout_attribute_step(
    st: StoreModel,
    r: RecordView,
    keys: Seq<Seq<char>>,
    scored: Seq<(Seq<char>, u8)>,
    ts: nat,
    kind: Seq<char>,
    v: Seq<char>,
)
    requires
        digest_led(r.ssdeep),
        forall|i: int| 0 <= i < scored.len() ==> digest_led((#[trigger] scored[i]).0),
        is_attribute(r, kind, v),
    ensures
        count(ingest(st, r, keys, scored, ts), p_ssdeep() + r.ssdeep, kind + v) == count(
            st,
            p_ssdeep() + r.ssdeep,
            kind + v,
        ) + 1,
        count(ingest(st, r, keys, scored, ts), kind + v, r.ssdeep) == count(st, kind + v, r.ssdeep)
            + 1,
{
    let d = r.ssdeep;
    let out = p_ssdeep() + d;
    let m = kind + v;
    assert(out[0] == 's');
    assert(m[0] == kind[0]);
    let pubs = publication_plan(d, keys);
    let plan = record_plan(r, scored, ts);
    let e = edge_plan(d, scored);
    let f = fanout_plan(r, ts);
    assert forall|i: int| 0 <= i < pubs.len() implies no_put_at(#[trigger] pubs[i], out, m)
        && no_put_at(pubs[i], m, d) && pubs[i] != Op::Incr(out, m) && pubs[i] != Op::Incr(m, d) by {}
    lemma_no_incr_count(pubs, out, m);
    lemma_no_incr_count(pubs, m, d);
    lemma_count(st, pubs, out, m);
    lemma_count(st, pubs, m, d);
    lemma_edges_no_put(d, scored, out, m);
    lemma_edges_no_put(d, scored, m, d);
    lemma_fanout_attribute_counts(r, ts, kind, v);
    lemma_incr_count_concat(e, f, out, m);
    lemma_incr_count_concat(e, f, m, d);
    lemma_fanout_spares(r, ts);
    assert forall|i: int| 0 <= i < plan.len() implies no_put_at(#[trigger] plan[i], out, m)
        && no_put_at(plan[i], m, d) by {
        if i < e.len() {
            assert(plan[i] == e[i]);
        } else {
            assert(plan[i] == f[i - e.len()]);
            assert(spares_digests(f[i - e.len()]));
        }
    }
    lemma_count(apply_all(st, pubs), plan, out, m);
    lemma_count(apply_all(st, pubs), plan, m, d);
}

/// A record ingested `n` times, onto a store that linked none of its
/// attributes to its digest, leaves each attribute counted `n` times on
/// both sides of the fan-out: at `ssdeep:<digest>` for `<kind>:<value>`,
/// and at `<kind>:<value>` for the digest.
pub proof fn lemma_fanout_consistency(
    st: StoreModel,
    batch: Seq<(RecordView, Seq<Seq<char>>, Seq<(Seq<char>, u8)>, nat)>,
    r: RecordView,
    kind: Seq<char>,
    v: Seq<char>,
)
    requires
        digest_keyed(batch),
        forall|j: int| 0 <= j < batch.len() ==> (#[trigger] batch[j]).0 == r,
        is_attribute(r, kind, v),
        count(st, p_ssdeep() + r.ssdeep, kind + v) == 0,
        count(st, kind + v, r.ssdeep) == 0,
    ensures
        count(ingest_all(st, batch), p_ssdeep() + r.ssdeep, kind + v) == batch.len(),
        count(ingest_all(st, batch), kind + v, r.ssdeep) == batch.len(),
    decreases batch.len(),
{
    if batch.len() > 0 {
        let p = batch.drop_last();
        assert(digest_keyed(p)) by {
            assert forall|j: int| 0 <= j < p.len() implies digest_led((#[trigger] p[j]).0.ssdeep)
                && forall|i: int| 0 <= i < p[j].2.len() ==> digest_led((#[trigger] p[j].2[i]).0) by {
                assert(p[j] == batch[j]);
            }
        }
        assert forall|j: int| 0 <= j < p.len() implies (#[trigger] p[j]).0 == r by {
            assert(p[j] == batch[j]);
        }
        lemma_fanout_consistency(st, p, r, kind, v);
        let (r2, keys, scored, ts) = batch.last();
        assert(batch[batch.len() - 1] == batch.last());
        lemma_fanout_attribute_step(ingest_all(st, p), r2, keys, scored, ts, kind, v);
    }
}

proof fn lemma_sets_grow(st: StoreModel, ops: Seq<Op>)
    ensures
        forall|k: Seq<char>| #[trigger] members(st, k).subset_of(members(apply_all(st, ops), k)),
    decreases ops.len(),
{
    if ops.len() > 0 {
        lemma_sets_grow(st, ops.drop_last());
        let prev = apply_all(st, ops.drop_last());
        assert forall|k: Seq<char>| #[trigger] members(st, k).subset_of(members(apply_all(st, ops), k)) by {
            assert(members(st, k).subset_of(members(prev, k)));
            assert(members(prev, k).subset_of(members(apply_op(prev, ops.last()), k)));
        }
    }
}

proof fn lemma_publication_members(st: StoreModel, d: Seq<char>, keys: Seq<Seq<char>>)
    ensures
        forall|i: int| 0 <= i < keys.len() ==> members(apply_all(st, publication_plan(d, keys)), #[trigger] keys[i]).contains(d),
    decreases keys.len(),
{
    if keys.len() > 0 {
        let p = keys.drop_last();
        lemma_publication_members(st, d, p);
        assert(publication_plan(d, keys).drop_last() =~= publication_plan(d, p));
        let prev = apply_all(st, publication_plan(d, p));
        let last = Op::Add(keys.last(), d);
        assert(publication_plan(d, keys).last() == last);
        lemma_sets_grow(prev, seq![last]);
        assert(seq![last].drop_last() =~= Seq::<Op>::empty());
        assert(apply_all(prev, seq![last]) == apply_op(apply_all(prev, Seq::<Op>::empty()), last));
        assert forall|i: int| 0 <= i < keys.len() implies members(apply_op(prev, last), #[trigger] keys[i]).contains(d) by {
            if i < p.len() {
                assert(keys[i] == p[i]);
                assert(members(prev, p[i]).contains(d));
                assert(members(prev, keys[i]).subset_of(members(apply_all(prev, seq![last]), keys[i])));
            }
        }
    }
}

/// Once a record is ingested, its digest stays in the sibling set of every
/// one of its window keys, whatever is ingested after it.
pub proof fn lemma_published(
    st: StoreModel,
    r: RecordView,
    keys: Seq<Seq<char>>,
    scored: Seq<(Seq<char>, u8)>,
    ts: nat,
    later: Seq<(RecordView, Seq<Seq<char>>, Seq<(Seq<char>, u8)>, nat)>,
)
    ensures
        forall|i: int| 0 <= i < keys.len() ==> members(ingest_all(ingest(st, r, keys, scored, ts), later), #[trigger] keys[i]).contains(r.ssdeep),
    decreases later.len(),
{
    if later.len() == 0 {
        let s1 = apply_all(st, publication_plan(r.ssdeep, keys));
        lemma_publication_members(st, r.ssdeep, keys);
        lemma_sets_grow(s1, record_plan(r, scored, ts));
        assert forall|i: int| 0 <= i < keys.len() implies members(ingest_all(ingest(st, r, keys, scored, ts), later), #[trigger] keys[i]).contains(r.ssdeep) by {
            assert(members(s1, keys[i]).subset_of(members(apply_all(s1, record_plan(r, scored, ts)), keys[i])));
        }
    } else {
        lemma_published(st, r, keys, scored, ts, later.drop_last());
        let base = ingest_all(ingest(st, r, keys, scored, ts), later.drop_last());
        let (r2, k2, s2, t2) = later.last();
        let mid = apply_all(base, publication_plan(r2.ssdeep, k2));
        lemma_sets_grow(base, publication_plan(r2.ssdeep, k2));
        lemma_sets_grow(mid, record_plan(r2, s2, t2));
        assert forall|i: int| 0 <= i < keys.len() implies members(ingest_all(ingest(st, r, keys, scored, ts), later), #[trigger] keys[i]).contains(r.ssdeep) by {
            assert(members(base, keys[i]).subset_of(members(mid, keys[i])));
            assert(members(mid, keys[i]).subset_of(members(apply_all(mid, record_plan(r2, s2, t2)), keys[i])));
        }
    }
}

/// No candidate name appears twice.
pub open spec fn names_distinct(scored: Seq<(Seq<char>, u8)>) -> bool {
    forall|i: int, j: int| 0 <= i < j < scored.len() ==> (#[trigger] scored[i]).0 != (#[trigger] scored[j]).0
}

proof fn lemma_edges_written(
    st: StoreModel,
    d: Seq<char>,
    scored: Seq<(Seq<char>, u8)>,
    j: int,
)
    requires
        0 <= j < scored.len(),
        names_distinct(scored),
        forall|i: int| 0 <= i < scored.len() ==> (#[trigger] scored[i]).0 != d,
    ensures
        zset(apply_all(st, edge_plan(d, scored)), d).contains_key(scored[j].0),
        zset(apply_all(st, edge_plan(d, scored)), d)[scored[j].0] == scored[j].1 as int,
        zset(apply_all(st, edge_plan(d, scored)), scored[j].0).contains_key(d),
        zset(apply_all(st, edge_plan(d, scored)), scored[j].0)[d] == scored[j].1 as int,
    decreases scored.len(),
{
    let p = scored.drop_last();
    let (s, x) = scored.last();
    let pair = seq![Op::Put(d, s, x as int), Op::Put(s, d, x as int)];
    lemma_apply_concat(st, edge_plan(d, p), pair);
    let s0 = apply_all(st, edge_plan(d, p));
    lemma_apply_pair(s0, Op::Put(d, s, x as int), Op::Put(s, d, x as int));
    assert(scored[scored.len() - 1] == (s, x));
    assert(s != d);
    if j < scored.len() - 1 {
        assert(names_distinct(p)) by {
            assert forall|a: int, b: int| 0 <= a < b < p.len() implies (#[trigger] p[a]).0 != (#[trigger] p[b]).0 by {
                assert(p[a] == scored[a] && p[b] == scored[b]);
            }
        }
        assert forall|i: int| 0 <= i < p.len() implies (#[trigger] p[i]).0 != d by {
            assert(p[i] == scored[i]);
        }
        assert(p[j] == scored[j]);
        lemma_edges_written(st, d, p, j);
        assert(scored[j].0 != s);
    }
}

/// When a later record's candidates include an earlier digest, the later
/// ingestion leaves the edge between the two in both directions, with the
/// score that the comparator gave.
pub proof fn lemma_edge_both_ways(
    st: StoreModel,
    r: RecordView,
    keys: Seq<Seq<char>>,
    scored: Seq<(Seq<char>, u8)>,
    ts: nat,
    j: int,
)
    requires
        0 <= j < scored.len(),
        digest_led(r.ssdeep),
        digest_led(scored[j].0),
        names_distinct(scored),
        forall|i: int| 0 <= i < scored.len() ==> (#[trigger] scored[i]).0 != r.ssdeep,
    ensures
        zset(ingest(st, r, keys, scored, ts), r.ssdeep).contains_key(scored[j].0),
        zset(ingest(st, r, keys, scored, ts), scored[j].0).contains_key(r.ssdeep),
        zset(ingest(st, r, keys, scored, ts), r.ssdeep)[scored[j].0] == scored[j].1 as int,
        zset(ingest(st, r, keys, scored, ts), scored[j].0)[r.ssdeep] == scored[j].1 as int,
{
    let s1 = apply_all(st, publication_plan(r.ssdeep, keys));
    lemma_edges_written(s1, r.ssdeep, scored, j);
    let s2 = apply_all(s1, edge_plan(r.ssdeep, scored));
    lemma_fanout_spares(r, ts);
    lemma_frame(s2, fanout_plan(r, ts));
    lemma_apply_concat(s1, edge_plan(r.ssdeep, scored), fanout_plan(r, ts));
}

proof fn lemma_keep_scored(names: Seq<Seq<char>>, scores: Seq<Option<u8>>)
    requires
        names.len() == scores.len(),
        names.no_duplicates(),
    ensures
        names_distinct(keep_scored(names, scores)),
        forall|k: int| 0 <= k < keep_scored(names, scores).len() ==> names.contains(#[trigger] keep_scored(names, scores)[k].0),
        forall|j: int| 0 <= j < names.len() && scores[j] is Some ==> keep_scored(names, scores).contains((names[j], scores[j]->0)),
    decreases names.len(),
{
    if names.len() > 0 {
        let pn = names.drop_last();
        let ps = scores.drop_last();
        assert(pn.no_duplicates()) by {
            assert forall|a: int, b: int| 0 <= a < pn.len() && 0 <= b < pn.len() && a != b implies pn[a] != pn[b] by {
                assert(pn[a] == names[a] && pn[b] == names[b]);
            }
        }
        lemma_keep_scored(pn, ps);
        let rest = keep_scored(pn, ps);
        let ks = keep_scored(names, scores);
        assert forall|k: int| 0 <= k < rest.len() implies #[trigger] rest[k].0 != names.last() by {
            let i = choose|i: int| 0 <= i < pn.len() && pn[i] == rest[k].0;
            assert(pn[i] == names[i]);
        }
        assert forall|k: int| 0 <= k < ks.len() implies names.contains(#[trigger] ks[k].0) by {
            if k < rest.len() {
                assert(ks[k] == rest[k]);
                let i = choose|i: int| 0 <= i < pn.len() && pn[i] == rest[k].0;
                assert(names[i] == pn[i]);
            } else {
                assert(names[names.len() - 1] == names.last());
            }
        }
        assert forall|j: int| 0 <= j < names.len() && scores[j] is Some implies ks.contains((names[j], scores[j]->0)) by {
            if j < names.len() - 1 {
                assert(pn[j] == names[j] && ps[j] == scores[j]);
                let k = choose|k: int| 0 <= k < rest.len() && rest[k] == (pn[j], ps[j]->0);
                assert(ks[k] == rest[k]);
            } else {
                assert(ks[ks.len() - 1] == (names[j], scores[j]->0));
            }
        }
    }
}

/// Two records whose digests share a window key end up linked both ways
/// with one score: the second ingestion reads the first digest from the
/// shared sibling set, the candidate finder returns it, and when the
/// comparator scores it, its edge is stored in both directions.
pub proof fn lemma_similar_records_linked(
    st: StoreModel,
    r1: RecordView,
    keys1: Seq<Seq<char>>,
    scored1: Seq<(Seq<char>, u8)>,
    ts1: nat,
    r2: RecordView,
    keys2: Seq<Seq<char>>,
    reads: Seq<Seq<Seq<char>>>,
    cands: Seq<Seq<char>>,
    scores: Seq<Option<u8>>,
    ts2: nat,
    i1: int,
    i2: int,
    x: u8,
)
    requires
        0 <= i1 < keys1.len(),
        0 <= i2 < keys2.len(),
        keys1[i1] == keys2[i2],
        r1.ssdeep != r2.ssdeep,
        digest_led(r2.ssdeep),
        reads.len() == keys2.len(),
        forall|i: int| 0 <= i < keys2.len() ==> (#[trigger] reads[i]).to_set() == members(
            apply_all(ingest(st, r1, keys1, scored1, ts1), publication_plan(r2.ssdeep, keys2)),
            keys2[i],
        ),
        cands.no_duplicates(),
        cands.to_set() == candidate_set(r2.ssdeep, reads),
        forall|j: int| 0 <= j < cands.len() ==> digest_led(#[trigger] cands[j]),
        scores.len() == cands.len(),
        forall|j: int| 0 <= j < cands.len() && cands[j] == r1.ssdeep ==> scores[j] == Some(x),
    ensures
        ({
            let st2 = ingest(
                ingest(st, r1, keys1, scored1, ts1),
                r2,
                keys2,
                keep_scored(cands, scores),
                ts2,
            );
            &&& zset(st2, r2.ssdeep).contains_key(r1.ssdeep)
            &&& zset(st2, r1.ssdeep).contains_key(r2.ssdeep)
            &&& zset(st2, r2.ssdeep)[r1.ssdeep] == x as int
            &&& zset(st2, r1.ssdeep)[r2.ssdeep] == x as int
        }),
{
    let d1 = r1.ssdeep;
    let d2 = r2.ssdeep;
    let st1 = ingest(st, r1, keys1, scored1, ts1);
    lemma_published(st, r1, keys1, scored1, ts1, Seq::empty());
    assert(ingest_all(st1, Seq::empty()) == st1);
    assert(members(st1, keys1[i1]).contains(d1));
    let pub2 = apply_all(st1, publication_plan(d2, keys2));
    lemma_sets_grow(st1, publication_plan(d2, keys2));
    assert(members(st1, keys2[i2]).subset_of(members(pub2, keys2[i2])));
    assert(reads[i2].to_set().contains(d1));
    let b = choose|b: int| 0 <= b < reads[i2].len() && reads[i2][b] == d1;
    assert(reads[i2][b] == d1);
    assert(candidate_set(d2, reads).contains(d1));
    assert(cands.to_set().contains(d1));
    let j = choose|j: int| 0 <= j < cands.len() && cands[j] == d1;
    lemma_keep_scored(cands, scores);
    let ks = keep_scored(cands, scores);
    assert(ks.contains((cands[j], scores[j]->0)));
    let k = choose|k: int| 0 <= k < ks.len() && ks[k] == (d1, x);
    assert forall|i: int| 0 <= i < ks.len() implies (#[trigger] ks[i]).0 != d2 by {
        assert(cands.contains(ks[i].0));
        assert(cands.to_set().contains(ks[i].0));
    }
    assert(digest_led(ks[k].0));
    lemma_edge_both_ways(st1, r2, keys2, ks, ts2, k);
}

/// How many tokens of the list equal `c`.
pub open spec fn occurrences(ctx: Seq<Seq<char>>, c: Seq<char>) -> int
    decreases ctx.len(),
{
    if ctx.len() == 0 {
        0
    } else {
        occurrences(ctx.drop_last(), c) + if ctx.last() == c {
            1int
        } else {
            0int
        }
    }
}

proof fn lemma_prefix_cancel(p: Seq<char>, x: Seq<char>, y: Seq<char>)
    ensures
        (p + x == p + y) == (x == y),
{
    if p + x == p + y {
        assert((p + x).subrange(p.len() as int, (p + x).len() as int) =~= x);
        assert((p + y).subrange(p.len() as int, (p + y).len() as int) =~= y);
    }
}

proof fn lemma_context_piece_counts(out: Seq<char>, d: Seq<char>, ctx: Seq<Seq<char>>, c: Seq<char>)
    requires
        out[0] == 's',
    ensures
        incr_count(context_out_plan(out, ctx), out, p_context() + c) == occurrences(ctx, c),
        incr_count(context_in_plan(d, ctx), p_context() + c, d) == occurrences(ctx, c),
        incr_count(context_out_plan(out, ctx), p_context() + c, d) == 0,
        incr_count(context_in_plan(d, ctx), out, p_context() + c) == 0,
    decreases ctx.len(),
{
    if ctx.len() > 0 {
        let p = ctx.drop_last();
        lemma_context_piece_counts(out, d, p, c);
        assert(context_out_plan(out, ctx).drop_last() =~= context_out_plan(out, p));
        assert(context_in_plan(d, ctx).drop_last() =~= context_in_plan(d, p));
        assert(context_out_plan(out, ctx).last() == Op::Incr(out, p_context() + ctx.last()));
        assert(context_in_plan(d, ctx).last() == Op::Incr(p_context() + ctx.last(), d));
        lemma_prefix_cancel(p_context(), ctx.last(), c);
        assert((p_context() + c)[0] == 'c');
        assert((p_context() + ctx.last())[0] == 'c');
    }
}

proof fn lemma_fanout_context_counts(r: RecordView, ts: nat, c: Seq<char>)
    ensures
        incr_count(fanout_plan(r, ts), p_ssdeep() + r.ssdeep, p_context() + c) == occurrences(r.context, c),
        incr_count(fanout_plan(r, ts), p_context() + c, r.ssdeep) == occurrences(r.context, c),
{
    let d = r.ssdeep;
    let out = p_ssdeep() + d;
    let m = p_context() + c;
    let a = context_out_plan(out, r.context);
    let b = context_in_plan(d, r.context);
    let cx = context_index_plan(r.context);
    let s1 = seq![
        Op::Incr(out, p_inputname() + r.inputname),
        Op::Incr(out, p_md5() + r.md5),
        Op::Incr(out, p_sha1() + r.sha1),
        Op::Incr(out, p_sha256() + r.sha256),
    ];
    let s2 = seq![
        Op::Incr(p_inputname() + r.inputname, d),
        Op::Incr(p_md5() + r.md5, d),
        Op::Incr(p_sha1() + r.sha1, d),
        Op::Incr(p_sha256() + r.sha256, d),
        Op::Incr(index_key(p_inputname()), r.inputname),
        Op::Incr(index_key(p_ssdeep()), d),
        Op::Incr(index_key(p_md5()), r.md5),
        Op::Incr(index_key(p_sha1()), r.sha1),
        Op::Incr(index_key(p_sha256()), r.sha256),
    ];
    let s3 = seq![Op::Scalar(seq!['t', 'i', 'm', 'e', 's', 't', 'a', 'm', 'p'], crate::text::decimal(ts))];
    let f = fanout_plan(r, ts);
    assert(f =~= s1 + a + b + s2 + cx + s3);
    assert(out[0] == 's' && out[1] == 's');
    assert(m[0] == 'c');
    assert((p_inputname() + r.inputname)[0] == 'i');
    assert((p_md5() + r.md5)[0] == 'm');
    assert((p_sha1() + r.sha1)[0] == 's' && (p_sha1() + r.sha1)[1] == 'h');
    assert((p_sha256() + r.sha256)[0] == 's' && (p_sha256() + r.sha256)[1] == 'h');
    assert(index_key(p_inputname())[0] == 'i');
    assert(index_key(p_ssdeep())[0] == 'i');
    assert(index_key(p_md5())[0] == 'i');
    assert(index_key(p_sha1())[0] == 'i');
    assert(index_key(p_sha256())[0] == 'i');
    assert(index_key(p_context())[0] == 'i');
    assert forall|i: int| 0 <= i < cx.len() implies #[trigger] cx[i] != Op::Incr(out, m) && cx[i] != Op::Incr(m, d) by {}
    lemma_no_incr_count(cx, out, m);
    lemma_no_incr_count(cx, m, d);
    lemma_context_piece_counts(out, d, r.context, c);
    lemma_incr_count_list(s1, out, m);
    lemma_incr_count_list(s1, m, d);
    lemma_incr_count_list(s2, out, m);
    lemma_incr_count_list(s2, m, d);
    lemma_incr_count_list(s3, out, m);
    lemma_incr_count_list(s3, m, d);
    lemma_incr_count_concat(s1, a, out, m);
    lemma_incr_count_concat(s1 + a, b, out, m);
    lemma_incr_count_concat(s1 + a + b, s2, out, m);
    lemma_incr_count_concat(s1 + a + b + s2, cx, out, m);
    lemma_incr_count_concat(s1 + a + b + s2 + cx, s3, out, m);
    lemma_incr_count_concat(s1, a, m, d);
    lemma_incr_count_concat(s1 + a, b, m, d);
    lemma_incr_count_concat(s1 + a + b, s2, m, d);
    lemma_incr_count_concat(s1 + a + b + s2, cx, m, d);
    lemma_incr_count_concat(s1 + a + b + s2 + cx, s3, m, d);
}

/// One ingestion of a record adds to both sides of the fan-out of a context
/// token as many as its list names that token.
pub proof fn lemma_fanout_context_step(
    st: StoreModel,
    r: RecordView,
    keys: Seq<Seq<char>>,
    scored: Seq<(Seq<char>, u8)>,
    ts: nat,
    c: Seq<char>,
)
    requires
        digest_led(r.ssdeep),
        forall|i: int| 0 <= i < scored.len() ==> digest_led((#[trigger] scored[i]).0),
    ensures
        count(ingest(st, r, keys, scored, ts), p_ssdeep() + r.ssdeep, p_context() + c) == count(
            st,
            p_ssdeep() + r.ssdeep,
            p_context() + c,
        ) + occurrences(r.context, c),
        count(ingest(st, r, keys, scored, ts), p_context() + c, r.ssdeep) == count(
            st,
            p_context() + c,
            r.ssdeep,
        ) + occurrences(r.context, c),
{
    let d = r.ssdeep;
    let out = p_ssdeep() + d;
    let m = p_context() + c;
    assert(out[0] == 's');
    assert(m[0] == 'c');
    let pubs = publication_plan(d, keys);
    let plan = record_plan(r, scored, ts);
    let e = edge_plan(d, scored);
    let f = fanout_plan(r, ts);
    assert forall|i: int| 0 <= i < pubs.len() implies no_put_at(#[trigger] pubs[i], out, m)
        && no_put_at(pubs[i], m, d) && pubs[i] != Op::Incr(out, m) && pubs[i] != Op::Incr(m, d) by {}
    lemma_no_incr_count(pubs, out, m);
    lemma_no_incr_count(pubs, m, d);
    lemma_count(st, pubs, out, m);
    lemma_count(st, pubs, m, d);
    lemma_edges_no_put(d, scored, out, m);
    lemma_edges_no_put(d, scored, m, d);
    lemma_fanout_context_counts(r, ts, c);
    lemma_incr_count_concat(e, f, out, m);
    lemma_incr_count_concat(e, f, m, d);
    lemma_fanout_spares(r, ts);
    assert forall|i: int| 0 <= i < plan.len() implies no_put_at(#[trigger] plan[i], out, m)
        && no_put_at(plan[i], m, d) by {
        if i < e.len() {
            assert(plan[i] == e[i]);
        } else {
            assert(plan[i] == f[i - e.len()]);
            assert(spares_digests(f[i - e.len()]));
        }
    }
    lemma_count(apply_all(st, pubs), plan, out, m);
    lemma_count(apply_all(st, pubs), plan, m, d);
}

/// A record ingested `n` times, onto a store that linked none of its
/// contexts to its digest, leaves a context token that its list names `k`
/// times counted `k * n` times on both sides: at `ssdeep:<digest>` for
/// `context:<token>`, and at `context:<token>` for the digest. A token named
/// once is thus counted `n` times, as every other attribute is.
pub proof fn lemma_context_fanout_consistency(
    st: StoreModel,
    batch: Seq<(RecordView, Seq<Seq<char>>, Seq<(Seq<char>, u8)>, nat)>,
    r: RecordView,
    c: Seq<char>,
)
    requires
        digest_keyed(batch),
        forall|j: int| 0 <= j < batch.len() ==> (#[trigger] batch[j]).0 == r,
        count(st, p_ssdeep() + r.ssdeep, p_context() + c) == 0,
        count(st, p_context() + c, r.ssdeep) == 0,
    ensures
        count(ingest_all(st, batch), p_ssdeep() + r.ssdeep, p_context() + c) == batch.len()
            * occurrences(r.context, c),
        count(ingest_all(st, batch), p_context() + c, r.ssdeep) == batch.len() * occurrences(
            r.context,
            c,
        ),
    decreases batch.len(),
{
    if batch.len() > 0 {
        let p = batch.drop_last();
        assert(digest_keyed(p)) by {
            assert forall|j: int| 0 <= j < p.len() implies digest_led((#[trigger] p[j]).0.ssdeep)
                && forall|i: int| 0 <= i < p[j].2.len() ==> digest_led((#[trigger] p[j].2[i]).0) by {
                assert(p[j] == batch[j]);
            }
        }
        assert forall|j: int| 0 <= j < p.len() implies (#[trigger] p[j]).0 == r by {
            assert(p[j] == batch[j]);
        }
        lemma_context_fanout_consistency(st, p, r, c);
        let (r2, keys, scored, ts) = batch.last();
        assert(batch[batch.len() - 1] == batch.last());
        lemma_fanout_context_step(ingest_all(st, p), r2, keys, scored, ts, c);
        let n = p.len() as int;
        let k = occurrences(r.context, c);
        assert(n * k + k == (n + 1) * k) by (nonlinear_arith);
    }
}

/// The candidate finder's output, scored, never makes a digest a member
/// of its own edge set: whatever the comparator said of each candidate.
pub proof fn lemma_no_self_edge_from_finder(
    st: StoreModel,
    r: RecordView,
    keys: Seq<Seq<char>>,
    reads: Seq<Seq<Seq<char>>>,
    cands: Seq<Seq<char>>,
    scores: Seq<Option<u8>>,
    ts: nat,
)
    requires
        no_self_edge(st),
        cands.no_duplicates(),
        cands.to_set() == candidate_set(r.ssdeep, reads),
        scores.len() == cands.len(),
    ensures
        no_self_edge(ingest(st, r, keys, keep_scored(cands, scores), ts)),
{
    lemma_keep_scored(cands, scores);
    let ks = keep_scored(cands, scores);
    assert forall|i: int| 0 <= i < ks.len() implies (#[trigger] ks[i]).0 != r.ssdeep by {
        assert(cands.contains(ks[i].0));
        assert(cands.to_set().contains(ks[i].0));
    }
    lemma_no_self_edge(st, r, keys, ks, ts);
}

proof fn lemma_split_first(s: Seq<char>, sep: char)
    ensures
        split_on(s, sep).len() >= 1,
        split_on(s, sep)[0].len() <= s.len(),
        s.take(split_on(s, sep)[0].len() as int) == split_on(s, sep)[0],
        split_on(s, sep).len() == 1 ==> split_on(s, sep)[0] == s,
    decreases s.len(),
{
    if s.len() == 0 {
        assert(s.take(0) =~= Seq::<char>::empty());
    } else {
        let p = s.drop_last();
        lemma_split_first(p, sep);
        let prev = split_on(p, sep);
        let f0 = prev[0];
        assert(s.take(f0.len() as int) =~= p.take(f0.len() as int));
        if s.last() != sep && prev.len() == 1 {
            assert(split_on(s, sep)[0] == f0.push(s.last()));
            assert(f0 == p);
            assert(p.push(s.last()) =~= s);
            assert(s.take(s.len() as int) =~= s);
        }
    }
}

/// Every well-formed digest starts with a digit of its blocksize, so it
/// is a key that the laws above treat as an edge set.
pub proof fn lemma_digest_led(d: Seq<char>)
    requires
        window_keys(d) is Some,
    ensures
        digest_led(d),
{
    lemma_split_first(d, ':');
    let f0 = split_on(d, ':')[0];
    assert(f0.len() > 0);
    assert(d.take(f0.len() as int)[0] == d[0]);
    assert(is_digit(f0[0]));
}

} // verus!
