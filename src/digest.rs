//! Decomposition of an ssdeep digest `B:S:D` into its window keys.

use vstd::prelude::*;
use crate::text::{chars_of, decimal, decimal_chars, split_chars, split_on, string_of, texts};

verus! {

/// Length of the sliding window over a normalized block.
pub const WINDOW: usize = 7;

/// Largest blocksize accepted; twice it still fits in the key arithmetic.
pub const MAX_BLOCKSIZE: u64 = 4294967295;

/// Why a digest could not be decomposed.
#[derive(Debug, Clone, Copy, PartialEq, Eq)]
pub enum DigestError {
    /// The digest does not split into exactly three colon-separated fields.
    FieldCount,
    /// The blocksize field is not a positive decimal number in range.
    Blocksize,
}

/// `s` ends with three copies of `c`.
pub open spec fn ends_with_triple(s: Seq<char>, c: char) -> bool {
    s.len() >= 3 && s[s.len() - 1] == c && s[s.len() - 2] == c && s[s.len() - 3] == c
}

/// `s` with every run of four or more equal characters cut to three.
pub open spec fn normalize(s: Seq<char>) -> Seq<char>
    decreases s.len(),
{
    if s.len() == 0 {
        s
    } else {
        let p = normalize(s.drop_last());
        if ends_with_triple(p, s.last()) {
            p
        } else {
            p.push(s.last())
        }
    }
}

/// No four consecutive characters of `s` are equal.
pub open spec fn no_quad_run(s: Seq<char>) -> bool {
    forall|i: int|
        #![trigger s[i]]
        3 <= i < s.len() ==> !(s[i - 3] == s[i] && s[i - 2] == s[i] && s[i - 1] == s[i])
}

/// `n` copies of `c`.
pub open spec fn run_of(c: char, n: nat) -> Seq<char> {
    Seq::new(n, |i: int| c)
}

/// `t` occurs in `s` starting at position `i`.
pub open spec fn occurs_at(t: Seq<char>, s: Seq<char>, i: int) -> bool {
    0 <= i && i + t.len() <= s.len() && s.subrange(i, i + t.len()) == t
}

pub open spec fn is_digit(c: char) -> bool {
    '0' <= c && c <= '9'
}

pub open spec fn all_digits(s: Seq<char>) -> bool {
    forall|i: int| 0 <= i < s.len() ==> is_digit(#[trigger] s[i])
}

/// The value of a string of decimal digits.
pub open spec fn digits_value(s: Seq<char>) -> nat
    decreases s.len(),
{
    if s.len() == 0 {
        0
    } else {
        digits_value(s.drop_last()) * 10 + ((s.last() as u32) - 48) as nat
    }
}

/// A blocksize field: decimal digits only, of a value in `1..=MAX_BLOCKSIZE`.
pub open spec fn valid_blocksize(f: Seq<char>) -> bool {
    f.len() > 0 && all_digits(f) && 1 <= digits_value(f) <= MAX_BLOCKSIZE
}

/// The key `"<blocksize>:<window>"`.
pub open spec fn window_key(b: nat, w: Seq<char>) -> Seq<char> {
    decimal(b) + seq![':'] + w
}

/// Every length-7 window of `s`, in order, keyed by blocksize `b`.
pub open spec fn block_windows(b: nat, s: Seq<char>) -> Seq<Seq<char>> {
    let n: int = if s.len() >= WINDOW { s.len() - 6 } else { 0 };
    Seq::new(n as nat, |i: int| window_key(b, s.subrange(i, i + 7)))
}

/// The window keys of a digest, or `None` when it is malformed.
pub open spec fn window_keys(d: Seq<char>) -> Option<Seq<Seq<char>>> {
    let f = split_on(d, ':');
    if f.len() == 3 && valid_blocksize(f[0]) {
        let b = digits_value(f[0]);
        Some(block_windows(b, normalize(f[1])) + block_windows(2 * b, normalize(f[2])))
    } else {
        None
    }
}

/// The error that decomposing a malformed digest reports.
pub open spec fn digest_error(d: Seq<char>) -> DigestError {
    if split_on(d, ':').len() != 3 {
        DigestError::FieldCount
    } else {
        DigestError::Blocksize
    }
}

proof fn lemma_normalize_no_quad(s: Seq<char>)
    ensures
        no_quad_run(normalize(s)),
    decreases s.len(),
{
    if s.len() > 0 {
        lemma_normalize_no_quad(s.drop_last());
    }
}

proof fn lemma_no_quad_fixed(t: Seq<char>)
    requires
        no_quad_run(t),
    ensures
        normalize(t) == t,
    decreases t.len(),
{
    if t.len() > 0 {
        let p = t.drop_last();
        assert(no_quad_run(p)) by {
            assert forall|i: int| 3 <= i < p.len() implies !(p[i - 3] == #[trigger] p[i]
                && p[i - 2] == p[i] && p[i - 1] == p[i]) by {
                assert(t[i] == p[i]);
                assert(t[i - 1] == p[i - 1]);
                assert(t[i - 2] == p[i - 2]);
                assert(t[i - 3] == p[i - 3]);
            }
        }
        lemma_no_quad_fixed(p);
        if ends_with_triple(p, t.last()) {
            assert(t[t.len() - 1] == t.last());
        }
        assert(p.push(t.last()) =~= t);
    }
}

/// Normalizing twice gives what normalizing once gives.
pub proof fn lemma_normalize_idempotent(s: Seq<char>)
    ensures
        normalize(normalize(s)) == normalize(s),
{
    lemma_normalize_no_quad(s);
    lemma_no_quad_fixed(normalize(s));
}

proof fn lemma_normalize_run(c: char, n: nat)
    requires
        n >= 3,
    ensures
        normalize(run_of(c, n)) =~= run_of(c, 3),
    decreases n,
{
    let s = run_of(c, n);
    if n == 3 {
        assert(s.drop_last() =~= run_of(c, 2));
        assert(run_of(c, 2).drop_last() =~= run_of(c, 1));
        assert(run_of(c, 1).drop_last() =~= run_of(c, 0));
        assert(normalize(run_of(c, 0)) =~= run_of(c, 0));
        assert(normalize(run_of(c, 1)) =~= run_of(c, 1));
        assert(normalize(run_of(c, 2)) =~= run_of(c, 2));
    } else {
        assert(s.drop_last() =~= run_of(c, (n - 1) as nat));
        lemma_normalize_run(c, (n - 1) as nat);
    }
}

/// A run of four or more copies of one character normalizes to a text that
/// holds three copies of it and never four in a row.
pub proof fn lemma_run_collapse(c: char, n: nat)
    requires
        n >= 4,
    ensures
        occurs_at(run_of(c, 3), normalize(run_of(c, n)), 0),
        forall|i: int| !occurs_at(run_of(c, 4), normalize(run_of(c, n)), i),
{
    lemma_normalize_run(c, n);
    assert(run_of(c, 3).subrange(0, 3) =~= run_of(c, 3));
}

/// Window keys are a function of the digest text alone: equal digests
/// decompose to equal key lists.
pub proof fn lemma_window_keys_deterministic(d1: Seq<char>, d2: Seq<char>)
    requires
        d1 == d2,
    ensures
        window_keys(d1) == window_keys(d2),
{
}

/// Collapses every run of four or more equal characters to three.
pub fn remove_plusthree_chars(ssdeep_part: &String) -> (r: String)
    ensures
        r@ == normalize(ssdeep_part@),
{
    let v = chars_of(ssdeep_part.as_str());
    let mut out: Vec<char> = Vec::new();
    let mut i: usize = 0;
    proof {
        assert(v@.take(0) =~= Seq::<char>::empty());
    }
    while i < v.len()
        invariant
            i <= v@.len(),
            out@ == normalize(v@.take(i as int)),
        decreases v.len() - i,
    {
        let c = v[i];
        proof {
            assert(v@.take(i + 1).drop_last() =~= v@.take(i as int));
        }
        let n = out.len();
        let triple = n >= 3 && out[n - 1] == c && out[n - 2] == c && out[n - 3] == c;
        if !triple {
            out.push(c);
        }
        i = i + 1;
    }
    proof {
        assert(v@.take(v@.len() as int) =~= v@);
    }
    string_of(&out)
}

proof fn lemma_digits_prefix(s: Seq<char>, i: int)
    requires
        all_digits(s),
        0 <= i <= s.len(),
    ensures
        digits_value(s.take(i)) <= digits_value(s),
    decreases s.len(),
{
    if i < s.len() {
        let p = s.drop_last();
        assert(all_digits(p)) by {
            assert forall|j: int| 0 <= j < p.len() implies is_digit(#[trigger] p[j]) by {
                assert(s[j] == p[j]);
            }
        }
        assert(p.take(i) =~= s.take(i));
        lemma_digits_prefix(p, i);
    } else {
        assert(s.take(i) =~= s);
    }
}

/// Reads a blocksize field.
fn parse_blocksize(f: &Vec<char>) -> (r: Option<u64>)
    ensures
        r.is_some() == valid_blocksize(f@),
        r.is_some() ==> r.unwrap() as nat == digits_value(f@),
{
    if f.len() == 0 {
        return None;
    }
    let mut acc: u64 = 0;
    let mut i: usize = 0;
    proof {
        assert(f@.take(0) =~= Seq::<char>::empty());
    }
    while i < f.len()
        invariant
            i <= f@.len(),
            acc as nat == digits_value(f@.take(i as int)),
            acc <= MAX_BLOCKSIZE,
            forall|j: int| 0 <= j < i ==> is_digit(#[trigger] f@[j]),
        decreases f.len() - i,
    {
        let c = f[i];
        proof {
            assert(f@.take(i + 1).drop_last() =~= f@.take(i as int));
        }
        if !('0' <= c && c <= '9') {
            return None;
        }
        let d: u64 = (c as u32 - 48) as u64;
        let next: u64 = acc * 10 + d;
        if next > MAX_BLOCKSIZE {
            proof {
                assert(forall|j: int| 0 <= j < i + 1 ==> is_digit(#[trigger] f@[j]));
                if all_digits(f@) {
                    lemma_digits_prefix(f@, i + 1);
                }
            }
            return None;
        }
        acc = next;
        i = i + 1;
    }
    proof {
        assert(f@.take(f@.len() as int) =~= f@);
    }
    if acc == 0 {
        None
    } else {
        Some(acc)
    }
}

/// Appends to `out` the key of every length-7 window of `block`.
fn push_windows(out: &mut Vec<String>, blocksize: u64, block: &Vec<char>)
    ensures
        texts(final(out)@) == texts(old(out)@) + block_windows(blocksize as nat, block@),
{
    let prefix = decimal_chars(blocksize as u128);
    let ghost start = texts(old(out)@);
    if block.len() < WINDOW {
        proof {
            assert(block_windows(blocksize as nat, block@) =~= Seq::<Seq<char>>::empty());
            assert(texts(out@) =~= start + block_windows(blocksize as nat, block@));
        }
        return;
    }
    let n: usize = block.len() - 6;
    let mut i: usize = 0;
    while i < n
        invariant
            n == block@.len() - 6,
            i <= n,
            prefix@ == decimal(blocksize as nat),
            texts(out@) =~= start + block_windows(blocksize as nat, block@).take(i as int),
        decreases n - i,
    {
        let mut key: Vec<char> = prefix.clone();
        key.push(':');
        let mut j: usize = 0;
        while j < 7
            invariant
                i < n,
                n == block@.len() - 6,
                j <= 7,
                key@ == decimal(blocksize as nat) + seq![':'] + block@.subrange(i as int, i + j),
            decreases 7 - j,
        {
            let len = block.len();
            assert(i + j < len);
            key.push(block[i + j]);
            proof {
                assert(block@.subrange(i as int, i + j + 1) =~= block@.subrange(i as int, i + j).push(block@[i + j]));
            }
            j = j + 1;
        }
        let k = string_of(&key);
        let ghost before = out@;
        out.push(k);
        proof {
            assert(texts(out@) =~= texts(before).push(k@));
            assert(block_windows(blocksize as nat, block@).take(i + 1) =~= block_windows(blocksize as nat, block@).take(i as int).push(window_key(blocksize as nat, block@.subrange(i as int, i + 7))));
            assert(texts(out@) =~= start + block_windows(blocksize as nat, block@).take(i + 1));
        }
        i = i + 1;
    }
    proof {
        assert(block_windows(blocksize as nat, block@).take(n as int) =~= block_windows(blocksize as nat, block@));
    }
}

/// The keys of every length-7 window of `blockdata` under `blocksize`,
/// then of `blockdata_double` under `blocksize_double`.
pub fn get_all_7_char_rolling_window(
    blocksize: u64,
    blockdata: &String,
    blocksize_double: u64,
    blockdata_double: &String,
) -> (r: Vec<String>)
    ensures
        texts(r@) == block_windows(blocksize as nat, blockdata@) + block_windows(
            blocksize_double as nat,
            blockdata_double@,
        ),
{
    let mut r: Vec<String> = Vec::new();
    proof {
        assert(texts(r@) =~= Seq::<Seq<char>>::empty());
    }
    let single = chars_of(blockdata.as_str());
    let double = chars_of(blockdata_double.as_str());
    push_windows(&mut r, blocksize, &single);
    push_windows(&mut r, blocksize_double, &double);
    proof {
        assert(Seq::<Seq<char>>::empty() + block_windows(blocksize as nat, blockdata@) =~= block_windows(blocksize as nat, blockdata@));
    }
    r
}

/// The window keys of an ssdeep digest `B:S:D`: the windows of normalized
/// `S` under `B`, then those of normalized `D` under `2B`.
pub fn make_rolling_windows(ssdeep_hash: &String) -> (r: Result<Vec<String>, DigestError>)
    ensures
        match r {
            Ok(keys) => window_keys(ssdeep_hash@) == Some(texts(keys@)),
            Err(e) => window_keys(ssdeep_hash@) is None && e == digest_error(ssdeep_hash@),
        },
{
    let chars = chars_of(ssdeep_hash.as_str());
    let fields = split_chars(&chars, ':');
    proof {
        assert(fields@.map_values(|p: Vec<char>| p@).len() == fields@.len());
    }
    if fields.len() != 3 {
        return Err(DigestError::FieldCount);
    }
    proof {
        assert(fields@.map_values(|p: Vec<char>| p@)[0] == fields@[0]@);
        assert(fields@.map_values(|p: Vec<char>| p@)[1] == fields@[1]@);
        assert(fields@.map_values(|p: Vec<char>| p@)[2] == fields@[2]@);
    }
    let blocksize = match parse_blocksize(&fields[0]) {
        Some(b) => b,
        None => {
            return Err(DigestError::Blocksize);
        },
    };
    let single = remove_plusthree_chars(&string_of(&fields[1]));
    let double = remove_plusthree_chars(&string_of(&fields[2]));
    let r = get_all_7_char_rolling_window(blocksize, &single, blocksize * 2, &double);
    Ok(r)
}

} // verus!
