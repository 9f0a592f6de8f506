use std::collections::{HashMap, HashSet};

use kathe::artifact::{make_filename, make_timestamp};
use kathe::digest::{
    get_all_7_char_rolling_window, make_rolling_windows, remove_plusthree_chars, DigestError,
};
use kathe::hashes::{make_md5, make_sha1, make_sha256};
use kathe::sanitize::{make_context, remove_badchars};
use kathe::store::{
    add_data, edge_ops, get_similar_ssdeep_sets, ingest_finish, ingest_start, publication_ops,
    score_candidates, Record, StoreOp,
};

fn s(x: &str) -> String {
    x.to_string()
}

/// An in-memory store that runs the operations the library plans.
#[derive(Default)]
struct MemStore {
    sets: HashMap<String, HashSet<String>>,
    sorted: HashMap<String, HashMap<String, i64>>,
    scalars: HashMap<String, String>,
}

impl MemStore {
    fn run(&mut self, ops: &[StoreOp]) {
        for op in ops {
            match op {
                StoreOp::SetAdd { key, member } => {
                    self.sets.entry(key.clone()).or_default().insert(member.clone());
                }
                StoreOp::SortedPut { key, member, score } => {
                    self.sorted.entry(key.clone()).or_default().insert(member.clone(), *score as i64);
                }
                StoreOp::SortedIncr { key, member } => {
                    *self.sorted.entry(key.clone()).or_default().entry(member.clone()).or_insert(0) += 1;
                }
                StoreOp::ScalarSet { key, value } => {
                    self.scalars.insert(key.clone(), value.clone());
                }
            }
        }
    }

    fn members(&self, key: &str) -> Vec<String> {
        let mut v: Vec<String> = self.sets.get(key).map(|m| m.iter().cloned().collect()).unwrap_or_default();
        v.sort();
        v
    }

    fn score(&self, key: &str, member: &str) -> Option<i64> {
        self.sorted.get(key).and_then(|m| m.get(member)).copied()
    }

    /// One ingestion, in the driver's order, with a fixed comparator result.
    fn ingest(&mut self, rec: &Record, score: u8, ts: u128) {
        let start = ingest_start(rec).expect("well-formed digest");
        self.run(&start.ops);
        let reads: Vec<Vec<String>> = start.keys.iter().map(|k| self.members(k)).collect();
        let cands = get_similar_ssdeep_sets(&rec.ssdeep, &reads);
        let scores: Vec<Option<u8>> = cands.iter().map(|_| Some(score)).collect();
        self.run(&ingest_finish(rec, &cands, &scores, ts));
    }

    fn key_count(&self) -> usize {
        self.sets.len() + self.sorted.len()
    }
}

fn record(name: &str, ssdeep: &str, ctx: &str) -> Record {
    Record {
        inputname: s(name),
        md5: s("d41d8cd98f00b204e9800998ecf8427e"),
        sha1: s("da39a3ee5e6b4b0d3255bfef95601890afd80709"),
        sha256: s("e3b0c44298fc1c149afbf4c8996fb92427ae41e4649b934ca495991b7852b855"),
        ssdeep: s(ssdeep),
        context: make_context(&s(ctx)),
    }
}

#[test]
fn single_digest_windows() {
    let keys = make_rolling_windows(&s("6:ABCDEFG:HIJKLMN")).unwrap();
    assert_eq!(keys, vec![s("6:ABCDEFG"), s("12:HIJKLMN")]);
}

#[test]
fn single_digest_has_no_edges() {
    let mut st = MemStore::default();
    st.ingest(&record("a", "6:ABCDEFG:HIJKLMN", "x"), 50, 1);
    assert!(st.sorted.get("6:ABCDEFG:HIJKLMN").is_none());
}

#[test]
fn windows_slide_over_both_blocks() {
    let keys = make_rolling_windows(&s("3:ABCDEFGH:abcdefgh")).unwrap();
    assert_eq!(keys, vec![s("3:ABCDEFG"), s("3:BCDEFGH"), s("6:abcdefg"), s("6:bcdefgh")]);
}

#[test]
fn short_runs_yield_no_windows() {
    assert_eq!(remove_plusthree_chars(&s("aaaaaaa")), s("aaa"));
    assert_eq!(remove_plusthree_chars(&s("bbbbbb")), s("bbb"));
    assert_eq!(make_rolling_windows(&s("3:aaaaaaa:bbbbbb")).unwrap(), Vec::<String>::new());
}

#[test]
fn runs_collapse_before_windowing() {
    let keys = make_rolling_windows(&s("48:AAAAAAAABCDEF:")).unwrap();
    assert_eq!(keys, vec![s("48:AAABCDE"), s("48:AABCDEF")]);
}

#[test]
fn malformed_digests_are_rejected() {
    assert_eq!(make_rolling_windows(&s("foo")), Err(DigestError::FieldCount));
    assert_eq!(make_rolling_windows(&s("3:a:b:c")), Err(DigestError::FieldCount));
    assert_eq!(make_rolling_windows(&s("x:ABCDEFG:HIJKLMN")), Err(DigestError::Blocksize));
    assert_eq!(make_rolling_windows(&s("0:ABCDEFG:HIJKLMN")), Err(DigestError::Blocksize));
    assert_eq!(make_rolling_windows(&s(":ABCDEFG:HIJKLMN")), Err(DigestError::Blocksize));
    assert_eq!(make_rolling_windows(&s("-3:ABCDEFG:HIJKLMN")), Err(DigestError::Blocksize));
    assert_eq!(make_rolling_windows(&s("4294967296:ABCDEFG:H")), Err(DigestError::Blocksize));
}

#[test]
fn largest_blocksize_doubles() {
    let keys = make_rolling_windows(&s("4294967295:ABCDEFG:HIJKLMN")).unwrap();
    assert_eq!(keys, vec![s("4294967295:ABCDEFG"), s("8589934590:HIJKLMN")]);
}

#[test]
fn leading_zeros_are_dropped_from_keys() {
    let keys = make_rolling_windows(&s("006:ABCDEFG:")).unwrap();
    assert_eq!(keys, vec![s("6:ABCDEFG")]);
}

#[test]
fn decomposition_is_deterministic() {
    let d = s("96:aaaaaXYZabcdefgh:QQQQQQQQrstuvwxyz");
    assert_eq!(make_rolling_windows(&d), make_rolling_windows(&d.clone()));
}

#[test]
fn normalization_is_idempotent() {
    for x in ["", "abc", "aaaab", "xxxxxxxxyyyyyzz", "aaabbbbcccccd", "abababab"] {
        let once = remove_plusthree_chars(&s(x));
        assert_eq!(remove_plusthree_chars(&once), once);
    }
    assert_eq!(remove_plusthree_chars(&s("aaabbbbcccccd")), s("aaabbbcccd"));
}

#[test]
fn runs_of_four_or_more_become_three() {
    for n in 4..12 {
        let run: String = std::iter::repeat('x').take(n).collect();
        let out = remove_plusthree_chars(&run);
        assert!(out.contains("xxx"));
        assert!(!out.contains("xxxx"));
    }
    assert_eq!(remove_plusthree_chars(&s("xxxxx")), s("xxx"));
    assert_eq!(remove_plusthree_chars(&s("xxxxxxxx")), s("xxx"));
}

#[test]
fn explicit_window_list() {
    let keys = get_all_7_char_rolling_window(3072, &s("0123456789"), 6144, &s("abcdef"));
    assert_eq!(keys, vec![s("3072:0123456"), s("3072:1234567"), s("3072:2345678"), s("3072:3456789")]);
}

#[test]
fn sanitizer_removes_reserved_and_control() {
    assert_eq!(remove_badchars(&s("a b|c/d{e}f:g\\h(i)j,k\"l;m'n")), s("abcdefghijklmn"));
    assert_eq!(remove_badchars(&s("x\u{0}\u{1f}\u{7f}\u{85}\u{9f}y\u{fffd}z")), s("xyz"));
    assert_eq!(remove_badchars(&s("héllo-wörld_1.txt")), s("héllo-wörld_1.txt"));
    assert_eq!(remove_badchars(&s("\u{a0}")), s("\u{a0}"));
}

#[test]
fn contexts_split_and_keep_empty_tokens() {
    assert_eq!(make_context(&s("A,B,A")), vec![s("A"), s("B"), s("A")]);
    assert_eq!(make_context(&s("a,,b")), vec![s("a"), s(""), s("b")]);
    assert_eq!(make_context(&s("")), vec![s("")]);
    assert_eq!(make_context(&s("mal ware;,x:y")), vec![s("malware"), s("xy")]);
}

#[test]
fn candidates_are_unique_and_exclude_self() {
    let reads = vec![
        vec![s("d"), s("a"), s("b")],
        vec![],
        vec![s("b"), s("c"), s("d"), s("a")],
    ];
    let mut c = get_similar_ssdeep_sets(&s("d"), &reads);
    c.sort();
    assert_eq!(c, vec![s("a"), s("b"), s("c")]);
    assert_eq!(get_similar_ssdeep_sets(&s("d"), &vec![vec![s("d")]]), Vec::<String>::new());
}

#[test]
fn rejected_scores_are_dropped() {
    let scored = score_candidates(&vec![s("a"), s("b"), s("c")], &vec![Some(0), None, Some(77)]);
    assert_eq!(scored, vec![(s("a"), 0), (s("c"), 77)]);
}

#[test]
fn publication_adds_digest_under_each_key() {
    let ops = publication_ops(&s("6:ABCDEFG:HIJKLMN"), &vec![s("6:ABCDEFG"), s("12:HIJKLMN")]);
    let mut st = MemStore::default();
    st.run(&ops);
    assert_eq!(ops.len(), 2);
    assert_eq!(st.members("6:ABCDEFG"), vec![s("6:ABCDEFG:HIJKLMN")]);
    assert_eq!(st.members("12:HIJKLMN"), vec![s("6:ABCDEFG:HIJKLMN")]);
}

#[test]
fn edges_are_written_both_ways() {
    let ops = edge_ops(&s("d1"), &vec![(s("d2"), 42)]);
    let mut st = MemStore::default();
    st.run(&ops);
    assert_eq!(st.score("d1", "d2"), Some(42));
    assert_eq!(st.score("d2", "d1"), Some(42));
}

#[test]
fn similar_digests_link_symmetrically() {
    let mut st = MemStore::default();
    let d1 = "6:ABCDEFGX:zzzzzzzz";
    let d2 = "6:ABCDEFGY:yyyyyyyy";
    st.ingest(&record("one", d1, "c"), 63, 1);
    st.ingest(&record("two", d2, "c"), 63, 2);
    assert!(st.members("6:ABCDEFG").contains(&s(d1)));
    assert!(st.members("6:ABCDEFG").contains(&s(d2)));
    assert_eq!(st.score(d1, d2), Some(63));
    assert_eq!(st.score(d2, d1), Some(63));
    assert_eq!(st.score(d1, d1), None);
    assert_eq!(st.score(d2, d2), None);
}

#[test]
fn repeated_contexts_count_twice() {
    let mut st = MemStore::default();
    let d = "6:ABCDEFG:HIJKLMN";
    st.ingest(&record("f", d, "A,B,A"), 10, 1);
    assert_eq!(st.score(&format!("ssdeep:{}", d), "context:A"), Some(2));
    assert_eq!(st.score(&format!("ssdeep:{}", d), "context:B"), Some(1));
    assert_eq!(st.score("context:A", d), Some(2));
    assert_eq!(st.score("context:B", d), Some(1));
    assert_eq!(st.score("index:context", "A"), Some(2));
    assert_eq!(st.score("index:context", "B"), Some(1));
}

#[test]
fn reingesting_doubles_counters_only() {
    let mut st = MemStore::default();
    let d = "6:ABCDEFG:HIJKLMN";
    let other = "6:ABCDEFGQ:HIJKLMN";
    st.ingest(&record("o", other, "c"), 80, 1);
    let rec = record("f", d, "x");
    st.ingest(&rec, 80, 2);
    let keys_before = st.key_count();
    let siblings_before = st.members("6:ABCDEFG");
    st.ingest(&rec, 80, 3);
    assert_eq!(st.key_count(), keys_before);
    assert_eq!(st.members("6:ABCDEFG"), siblings_before);
    let out = format!("ssdeep:{}", d);
    for attr in [
        s("inputname:f"),
        format!("md5:{}", rec.md5),
        format!("sha1:{}", rec.sha1),
        format!("sha256:{}", rec.sha256),
        s("context:x"),
    ] {
        assert_eq!(st.score(&out, &attr), Some(2));
        assert_eq!(st.score(&attr, d), Some(2));
    }
    assert_eq!(st.score(d, other), Some(80));
    assert_eq!(st.score(other, d), Some(80));
    assert_eq!(st.score("index:ssdeep", d), Some(2));
    assert_eq!(st.score("index:ssdeep", other), Some(1));
    assert_eq!(st.score("index:inputname", "f"), Some(2));
    assert_eq!(st.score("index:md5", &rec.md5), Some(3));
    assert_eq!(st.scalars.get("timestamp"), Some(&s("3")));
}

#[test]
fn malformed_record_changes_nothing() {
    let st = MemStore::default();
    match ingest_start(&record("f", "foo", "x")) {
        Err(e) => assert_eq!(e, DigestError::FieldCount),
        Ok(_) => panic!("malformed digest accepted"),
    }
    assert_eq!(st.key_count(), 0);
}

#[test]
fn ingest_start_publishes_under_each_key() {
    let start = ingest_start(&record("f", "6:ABCDEFG:HIJKLMN", "x")).unwrap();
    assert_eq!(start.keys, vec![s("6:ABCDEFG"), s("12:HIJKLMN")]);
    assert_eq!(start.ops.len(), 2);
    match &start.ops[0] {
        StoreOp::SetAdd { key, member } => {
            assert_eq!(key, "6:ABCDEFG");
            assert_eq!(member, "6:ABCDEFG:HIJKLMN");
        }
        other => panic!("unexpected operation {:?}", other),
    }
}

#[test]
fn ingest_finish_drops_rejected_candidates() {
    let rec = record("f", "6:ABCDEFG:HIJKLMN", "x");
    let ops = ingest_finish(&rec, &vec![s("6:ABCDEFGQ:x"), s("6:ABCDEFGR:y")], &vec![None, Some(55)], 9);
    let mut st = MemStore::default();
    st.run(&ops);
    assert_eq!(st.score("6:ABCDEFG:HIJKLMN", "6:ABCDEFGQ:x"), None);
    assert_eq!(st.score("6:ABCDEFG:HIJKLMN", "6:ABCDEFGR:y"), Some(55));
    assert_eq!(st.score("6:ABCDEFGR:y", "6:ABCDEFG:HIJKLMN"), Some(55));
    assert_eq!(st.scalars.get("timestamp"), Some(&s("9")));
}

#[test]
fn repeated_contexts_count_per_ingestion() {
    let mut st = MemStore::default();
    let d = "6:ABCDEFG:HIJKLMN";
    let rec = record("f", d, "A,B,A");
    for ts in 0..3 {
        st.ingest(&rec, 10, ts);
    }
    assert_eq!(st.score(&format!("ssdeep:{}", d), "context:A"), Some(6));
    assert_eq!(st.score("context:A", d), Some(6));
    assert_eq!(st.score(&format!("ssdeep:{}", d), "context:B"), Some(3));
    assert_eq!(st.score("context:B", d), Some(3));
}

#[test]
fn timestamp_is_written_in_decimal() {
    let ops = add_data(&record("f", "3:a:b", ""), &vec![], 1700000000123456);
    match ops.last() {
        Some(StoreOp::ScalarSet { key, value }) => {
            assert_eq!(key, "timestamp");
            assert_eq!(value, "1700000000123456");
        }
        other => panic!("unexpected last operation {:?}", other),
    }
    assert!(make_timestamp().unwrap() > 1_600_000_000_000_000);
}

#[test]
fn file_names_come_from_the_last_component() {
    assert_eq!(make_filename(&s("/tmp/dir/sample.bin")), Some(s("sample.bin")));
    assert_eq!(make_filename(&s("sample.bin")), Some(s("sample.bin")));
    assert_eq!(make_filename(&s("/tmp/dir/..")), None);
    assert_eq!(make_filename(&s("/")), None);
}

#[test]
fn primitive_hashes_of_known_inputs() {
    let empty: Vec<u8> = Vec::new();
    assert_eq!(make_md5(&empty), s("d41d8cd98f00b204e9800998ecf8427e"));
    assert_eq!(make_sha1(&empty), s("da39a3ee5e6b4b0d3255bfef95601890afd80709"));
    assert_eq!(
        make_sha256(&empty),
        s("e3b0c44298fc1c149afbf4c8996fb92427ae41e4649b934ca495991b7852b855")
    );
    let abc = b"abc".to_vec();
    assert_eq!(make_md5(&abc), s("900150983cd24fb0d6963f7d28e17f72"));
    assert_eq!(make_sha1(&abc), s("a9993e364706816aba3e25717850c26c9cd0d89d"));
    assert_eq!(
        make_sha256(&abc),
        s("ba7816bf8f01cfea414140de5dae2223b00361a396177a9cb410ff61f20015ad")
    );
}
