//! File-name stems from page titles.

use vstd::prelude::*;
use vstd::std_specs::iter::IteratorSpec;
use crate::text::{
    char_width, lemma_utf8_len_at_least_len, lemma_utf8_len_first, lemma_utf8_len_push,
    lemma_utf8_width, utf8_len, utf8_width,
};

verus! {

/// The most bytes of UTF-8 that a stem may take.
pub const MAX_STEM_BYTES: usize = 120;

/// Whether `c` is one of the characters that may not stand in a file name:
/// `\ / * ? : " < > |`.
pub open spec fn is_reserved(c: char) -> bool {
    c == '\\' || c == '/' || c == '*' || c == '?' || c == ':' || c == '"' || c == '<' || c == '>'
        || c == '|'
}

/// `c`, or `_` in its place where `c` is reserved.
pub open spec fn replaced_char(c: char) -> char {
    if is_reserved(c) {
        '_'
    } else {
        c
    }
}

/// `text` with `_` in place of each reserved character.
pub open spec fn replaced(text: Seq<char>) -> Seq<char> {
    Seq::new(text.len(), |i: int| replaced_char(text[i]))
}

/// The longest prefix of `text` that takes at most `limit` bytes of UTF-8.
/// The cut never falls inside a character.
pub open spec fn truncated(text: Seq<char>, limit: nat) -> Seq<char>
    decreases text.len(),
{
    if text.len() == 0 || utf8_width(text.first()) > limit {
        Seq::empty()
    } else {
        seq![text.first()] + truncated(
            text.drop_first(),
            (limit - utf8_width(text.first())) as nat,
        )
    }
}

/// The stem that a title gives: reserved characters replaced, then cut to
/// `MAX_STEM_BYTES`.
pub open spec fn sanitized(title: Seq<char>) -> Seq<char> {
    truncated(replaced(title), MAX_STEM_BYTES as nat)
}

/// No reserved character is left after the replacement, and none of the text's
/// length is lost or gained.
pub proof fn lemma_replaced(text: Seq<char>)
    ensures
        replaced(text).len() == text.len(),
        forall|i: int| 0 <= i < text.len() ==> !is_reserved(#[trigger] replaced(text)[i]),
        utf8_len(replaced(text)) == utf8_len(text),
    decreases text.len(),
{
    if text.len() > 0 {
        lemma_replaced(text.drop_first());
        assert(replaced(text).drop_first() =~= replaced(text.drop_first()));
        lemma_utf8_len_first(text);
        lemma_utf8_len_first(replaced(text));
        lemma_utf8_width(text.first());
        lemma_utf8_width(replaced(text).first());
    } else {
        assert(replaced(text) =~= text);
    }
}

/// `truncated(text, limit)` is a prefix of `text` that fits in `limit` bytes,
/// and no longer prefix of `text` fits. A text that fits is left whole.
pub proof fn lemma_truncated(text: Seq<char>, limit: nat)
    ensures
        truncated(text, limit).is_prefix_of(text),
        utf8_len(truncated(text, limit)) <= limit,
        truncated(text, limit).len() <= limit,
        truncated(text, limit).len() < text.len() ==> utf8_len(
            text.take(truncated(text, limit).len() as int + 1),
        ) > limit,
        utf8_len(text) <= limit ==> truncated(text, limit) == text,
        text.len() > 0 && limit >= 4 ==> truncated(text, limit).len() > 0,
    decreases text.len(),
{
    let cut = truncated(text, limit);
    if text.len() == 0 {
        assert(cut =~= text);
    } else {
        let first = text.first();
        let rest = text.drop_first();
        lemma_utf8_width(first);
        lemma_utf8_len_first(text);
        if utf8_width(first) > limit {
            assert(text.take(1) =~= seq![first]);
            lemma_utf8_len_first(seq![first]);
            assert(seq![first].drop_first() =~= Seq::<char>::empty());
            assert(utf8_len(Seq::<char>::empty()) == 0);
        } else {
            let room = (limit - utf8_width(first)) as nat;
            let tail = truncated(rest, room);
            lemma_truncated(rest, room);
            assert(cut == seq![first] + tail);
            assert(cut.drop_first() =~= tail);
            lemma_utf8_len_first(cut);
            assert(cut.is_prefix_of(text)) by {
                assert forall|i: int| 0 <= i < cut.len() implies cut[i] == text[i] by {
                    if i > 0 {
                        assert(cut[i] == tail[i - 1]);
                        assert(tail[i - 1] == rest[i - 1]);
                    }
                }
            }
            if cut.len() < text.len() {
                let longer = text.take(cut.len() as int + 1);
                assert(longer.drop_first() =~= rest.take(tail.len() as int + 1));
                lemma_utf8_len_first(longer);
            }
            if utf8_len(text) <= limit {
                assert(cut =~= text);
            }
        }
    }
    lemma_utf8_len_at_least_len(cut);
}

/// Whether `c` may not stand in a file name.
pub fn is_reserved_char(c: char) -> (reserved: bool)
    ensures
        reserved == is_reserved(c),
{
    c == '\\' || c == '/' || c == '*' || c == '?' || c == ':' || c == '"' || c == '<' || c == '>'
        || c == '|'
}

/// Makes a file-name stem from a title: each reserved character becomes `_`,
/// and the result is cut, between characters, to at most `MAX_STEM_BYTES`
/// bytes.
pub fn sanitize(s: &str) -> (stem: String)
    ensures
        stem@ == sanitized(s@),
        forall|i: int| 0 <= i < stem@.len() ==> !is_reserved(#[trigger] stem@[i]),
        utf8_len(stem@) <= MAX_STEM_BYTES,
        stem@.len() <= MAX_STEM_BYTES,
        stem@.is_prefix_of(replaced(s@)),
        stem@.len() < s@.len() ==> utf8_len(replaced(s@).take(stem@.len() as int + 1))
            > MAX_STEM_BYTES,
        utf8_len(s@) <= MAX_STEM_BYTES ==> stem@ == replaced(s@),
        s@.len() > 0 ==> stem@.len() > 0,
{
    broadcast use vstd::string::group_string_axioms;

    let ghost whole = replaced(s@);
    let mut out = String::new();
    let mut used: usize = 0;
    let mut it = s.chars();
    let ghost mut k: int = 0;
    proof {
        assert(whole.skip(0) =~= whole);
        assert(s@.skip(0) =~= s@);
        assert(out@ =~= whole.take(0));
    }
    loop
        invariant_except_break
            whole == replaced(s@),
            0 <= k <= s@.len(),
            it.remaining() == s@.skip(k),
            out@ == whole.take(k),
            used == utf8_len(out@),
            used <= MAX_STEM_BYTES,
            sanitized(s@) == out@ + truncated(whole.skip(k), (MAX_STEM_BYTES - used) as nat),
        ensures
            out@ == sanitized(s@),
        decreases s@.len() - k,
    {
        match it.next() {
            None => {
                assert(whole.skip(k) =~= Seq::<char>::empty());
                break ;
            },
            Some(c) => {
                let kept = if is_reserved_char(c) {
                    '_'
                } else {
                    c
                };
                let width = char_width(kept);
                assert(kept == whole.skip(k).first());
                if used + width > MAX_STEM_BYTES {
                    break ;
                }
                proof {
                    lemma_utf8_len_push(out@, kept);
                    assert(whole.take(k + 1) =~= whole.take(k).push(kept));
                    assert(whole.skip(k).drop_first() =~= whole.skip(k + 1));
                    assert(s@.skip(k).drop_first() =~= s@.skip(k + 1));
                    k = k + 1;
                }
                out.push(kept);
                used = used + width;
            },
        }
    }
    proof {
        lemma_replaced(s@);
        lemma_truncated(whole, MAX_STEM_BYTES as nat);
    }
    out
}

} // verus!
