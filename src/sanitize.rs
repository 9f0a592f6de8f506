//! Cleaning of strings that become key fragments: input names and
//! context tokens.

use vstd::prelude::*;
use crate::text::{chars_of, split_chars, split_on, string_of, texts};

verus! {

/// A control character: general category Cc, that is U+0000..=U+001F and
/// U+007F..=U+009F.
pub open spec fn is_control_char(c: char) -> bool {
    (c as u32) <= 0x1f || (0x7f <= (c as u32) && (c as u32) <= 0x9f)
}

/// A character that separates fields of keys or of records.
pub open spec fn is_reserved(c: char) -> bool {
    c == '\u{FFFD}' || c == '|' || c == '/' || c == '{' || c == '}' || c == ':' || c == '\\'
        || c == '(' || c == ')' || c == ',' || c == '"' || c == ' ' || c == ';' || c == '\''
}

pub open spec fn is_kept(c: char) -> bool {
    !is_control_char(c) && !is_reserved(c)
}

/// `s` without its control and reserved characters.
pub open spec fn sanitize(s: Seq<char>) -> Seq<char>
    decreases s.len(),
{
    if s.len() == 0 {
        s
    } else if is_kept(s.last()) {
        sanitize(s.drop_last()).push(s.last())
    } else {
        sanitize(s.drop_last())
    }
}

/// The sanitized tokens of a comma-separated context list; empty tokens stay.
pub open spec fn context_tokens(s: Seq<char>) -> Seq<Seq<char>> {
    split_on(s, ',').map_values(|t: Seq<char>| sanitize(t))
}

fn keep_char(c: char) -> (r: bool)
    ensures
        r == is_kept(c),
{
    let u = c as u32;
    let control = u <= 0x1f || (0x7f <= u && u <= 0x9f);
    let reserved = c == '\u{FFFD}' || c == '|' || c == '/' || c == '{' || c == '}' || c == ':'
        || c == '\\' || c == '(' || c == ')' || c == ',' || c == '"' || c == ' ' || c == ';'
        || c == '\'';
    !control && !reserved
}

fn sanitize_chars(v: &Vec<char>) -> (r: Vec<char>)
    ensures
        r@ == sanitize(v@),
{
    let mut out: Vec<char> = Vec::new();
    let mut i: usize = 0;
    proof {
        assert(v@.take(0) =~= Seq::<char>::empty());
    }
    while i < v.len()
        invariant
            i <= v@.len(),
            out@ == sanitize(v@.take(i as int)),
        decreases v.len() - i,
    {
        let c = v[i];
        proof {
            let t = v@.take(i + 1);
            assert(t.drop_last() =~= v@.take(i as int));
            assert(t.last() == c);
        }
        if keep_char(c) {
            out.push(c);
        }
        i = i + 1;
    }
    proof {
        assert(v@.take(v@.len() as int) =~= v@);
    }
    out
}

/// Removes every control character and every reserved character.
pub fn remove_badchars(inputstring: &String) -> (r: String)
    ensures
        r@ == sanitize(inputstring@),
{
    let v = chars_of(inputstring.as_str());
    let out = sanitize_chars(&v);
    string_of(&out)
}

/// Splits a context list on `,` and sanitizes each token.
pub fn make_context(context: &String) -> (r: Vec<String>)
    ensures
        texts(r@) == context_tokens(context@),
{
    let v = chars_of(context.as_str());
    let parts = split_chars(&v, ',');
    let ghost pv = parts@.map_values(|p: Vec<char>| p@);
    let mut r: Vec<String> = Vec::new();
    let mut i: usize = 0;
    while i < parts.len()
        invariant
            i <= parts@.len(),
            pv == parts@.map_values(|p: Vec<char>| p@),
            pv == split_on(context@, ','),
            texts(r@) =~= pv.map_values(|t: Seq<char>| sanitize(t)).take(i as int),
        decreases parts.len() - i,
    {
        let clean = sanitize_chars(&parts[i]);
        let t = string_of(&clean);
        let ghost before = r@;
        r.push(t);
        proof {
            assert(pv[i as int] == parts@[i as int]@);
            assert(texts(r@) =~= texts(before).push(t@));
            assert(pv.map_values(|t: Seq<char>| sanitize(t)).take(i + 1) =~= pv.map_values(
                |t: Seq<char>| sanitize(t),
            ).take(i as int).push(sanitize(pv[i as int])));
        }
        i = i + 1;
    }
    proof {
        assert(pv.map_values(|t: Seq<char>| sanitize(t)).take(i as int) =~= pv.map_values(
            |t: Seq<char>| sanitize(t),
        ));
    }
    r
}

} // verus!
