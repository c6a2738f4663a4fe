//! Text chunking of the first server's speech stage: sentences end at
//! every `.`, `!` or `?` that is not the first character of a sentence.
use vstd::prelude::*;
use crate::text::{chars_of, str_views};
use crate::tts::{
    is_cut, is_terminator, next_cut, raw_sentences, group_chunks, group_sentences, lemma_group_chunks_bound, lemma_group_chunks_concat,
    lemma_group_chunks_greedy, lemma_group_chunks_whole_sentences, is_run, starts_overflowing,
    lemma_raw_sentences_concat, plain_sentences, sentence_ranges, strings_of_ranges,
};

verus! {

/// Splits text after each `.`, `!` or `?` that does not start a sentence;
/// a final piece without one is kept.
pub fn split_sentences(text: &str) -> (out: Vec<String>)
    ensures
        str_views(out@) == plain_sentences(text@),
{
    let v = chars_of(text);
    let rs = sentence_ranges(&v, false);
    strings_of_ranges(&v, &rs)
}

/// The chunks of `text`: its sentences greedily grouped up to `max` bytes,
/// or `text` itself when there are none.
pub open spec fn chunk_text_spec(text: Seq<char>, max: int) -> Seq<Seq<char>> {
    let g = group_chunks(plain_sentences(text), max);
    if g.len() == 0 {
        seq![text]
    } else {
        g
    }
}

/// Groups the sentences of `text` into chunks of at most `max_chars`
/// bytes; a sentence longer than that forms a chunk of its own.
pub fn chunk_text(text: &str, max_chars: usize) -> (chunks: Vec<String>)
    ensures
        str_views(chunks@) == chunk_text_spec(text@, max_chars as int),
{
    let sentences = split_sentences(text);
    let mut chunks = group_sentences(&sentences, max_chars);
    if chunks.len() == 0 {
        let whole = crate::text::owned(text);
        proof {
            assert(str_views(chunks@.push(whole)) =~= seq![text@]);
        }
        chunks.push(whole);
    }
    chunks
}

/// The chunks of a text, put back together, are the text.
pub proof fn lemma_chunk_text_reassembles(text: Seq<char>, max: int)
    ensures
        chunk_text_spec(text, max).flatten() == text,
{
    lemma_raw_sentences_concat(text, 0, false);
    assert(text.skip(0) =~= text);
    lemma_group_chunks_concat(plain_sentences(text), max);
    if group_chunks(plain_sentences(text), max).len() == 0 {
        seq![text].lemma_flatten_one_element();
    }
}

/// Every chunk fits in `max` bytes unless it is a single sentence that
/// does not.
pub proof fn lemma_chunk_text_bound(text: Seq<char>, max: int)
    requires
        max >= 0,
    ensures
        forall|i: int| 0 <= i < chunk_text_spec(text, max).len() ==> crate::text::byte_len(
            #[trigger] chunk_text_spec(text, max)[i],
        ) <= max || exists|j: int|
            0 <= j < plain_sentences(text).len() && chunk_text_spec(text, max)[i] == plain_sentences(
                text,
            )[j],
{
    lemma_group_chunks_bound(plain_sentences(text), max);
    let g = group_chunks(plain_sentences(text), max);
    if g.len() == 0 {
        lemma_chunk_text_reassembles(text, max);
        lemma_raw_sentences_concat(text, 0, false);
        lemma_group_chunks_concat(plain_sentences(text), max);
        assert(text.skip(0) =~= text);
        assert(text.len() == 0);
        assert(crate::text::byte_len(text) == 0);
        assert(chunk_text_spec(text, max)[0] == text);
    }
}

/// Greedy packing of whole sentences: each chunk is a run of whole
/// consecutive sentences (or the text itself when there are none), and a
/// chunk is closed only when the sentence that begins the next one would
/// have pushed it past `max` bytes.
pub proof fn lemma_chunk_text_greedy(text: Seq<char>, max: int)
    ensures
        chunk_text_spec(text, max) == seq![text] || forall|i: int|
            0 <= i < chunk_text_spec(text, max).len() ==> is_run(
                plain_sentences(text),
                #[trigger] chunk_text_spec(text, max)[i],
            ),
        forall|k: int|
            0 <= k < chunk_text_spec(text, max).len() - 1 ==> starts_overflowing(
                plain_sentences(text),
                #[trigger] chunk_text_spec(text, max)[k],
                chunk_text_spec(text, max)[k + 1],
                max,
            ),
{
    lemma_group_chunks_greedy(plain_sentences(text), max);
    lemma_group_chunks_whole_sentences(plain_sentences(text), max);
}

proof fn lemma_next_cut_plain(t: Seq<char>, start: int, i: int)
    requires
        0 <= start <= i,
    ensures
        next_cut(t, start, i, false) matches Some(e) ==> i <= e < t.len() && start < e && is_terminator(t[e])
            && forall|j: int| i <= j < e && start < j ==> !is_terminator(#[trigger] t[j]),
        next_cut(t, start, i, false) is None ==> forall|j: int|
            i <= j < t.len() && start < j ==> !is_terminator(#[trigger] t[j]),
    decreases t.len() - i,
{
    if i < t.len() && !is_cut(t, start, i, false) {
        lemma_next_cut_plain(t, start, i + 1);
    }
}

/// The shape of each piece of `plain_sentences(t)` from `start` on.
pub open spec fn plain_piece_shape(ps: Seq<Seq<char>>) -> bool {
    forall|k: int|
        0 <= k < ps.len() ==> {
            &&& (#[trigger] ps[k]).len() > 0
            &&& forall|j: int| 0 < j < ps[k].len() - 1 ==> !is_terminator(ps[k][j])
            &&& k < ps.len() - 1 ==> ps[k].len() >= 2 && is_terminator(ps[k].last())
        }
}

proof fn lemma_raw_plain_shape(t: Seq<char>, start: int)
    requires
        0 <= start,
    ensures
        plain_piece_shape(raw_sentences(t, start, false)),
    decreases t.len() - start,
{
    if start < t.len() {
        lemma_next_cut_plain(t, start, start);
        match next_cut(t, start, start, false) {
            Some(e) => {
                lemma_raw_plain_shape(t, e + 1);
                let rest = raw_sentences(t, e + 1, false);
                let first = t.subrange(start, e + 1);
                let ps = raw_sentences(t, start, false);
                assert(ps == seq![first] + rest);
                assert forall|k: int| 0 <= k < ps.len() implies {
                    &&& (#[trigger] ps[k]).len() > 0
                    &&& forall|j: int| 0 < j < ps[k].len() - 1 ==> !is_terminator(ps[k][j])
                    &&& k < ps.len() - 1 ==> ps[k].len() >= 2 && is_terminator(ps[k].last())
                } by {
                    if k == 0 {
                        assert(ps[0] == first);
                        assert forall|j: int| 0 < j < first.len() - 1 implies !is_terminator(first[j]) by {
                            assert(first[j] == t[start + j]);
                        }
                        assert(first.last() == t[e]);
                    } else {
                        assert(ps[k] == rest[k - 1]);
                    }
                }
            },
            None => {
                let only = t.subrange(start, t.len() as int);
                let ps = raw_sentences(t, start, false);
                assert(ps == seq![only]);
                assert forall|j: int| 0 < j < only.len() - 1 implies !is_terminator(only[j]) by {
                    assert(only[j] == t[start + j]);
                }
            },
        }
    }
}

/// The sentences of a text, put back together, are the text; none is
/// empty; a sentence ends exactly at the first `.`, `!` or `?` after its
/// first character, so only the last one can end without one.
pub proof fn lemma_plain_sentences_split(t: Seq<char>)
    ensures
        plain_sentences(t).flatten() == t,
        plain_piece_shape(plain_sentences(t)),
{
    lemma_raw_sentences_concat(t, 0, false);
    assert(t.skip(0) =~= t);
    lemma_raw_plain_shape(t, 0);
}

} // verus!
