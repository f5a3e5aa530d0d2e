//! The byte layouts the trainer reads: a cohort file is a row count, a row
//! width and then the rows; a streamed frame is a row count and then the rows.
//! Every number is a 32-bit little-endian word (the rows' floats travel as
//! their bit patterns).

use vstd::prelude::*;

verus! {

/// The four little-endian bytes of a 32-bit word.
pub open spec fn le_bytes(w: u32) -> Seq<u8> {
    seq![(w & 0xff) as u8, ((w >> 8u32) & 0xff) as u8, ((w >> 16u32) & 0xff) as u8, (w >> 24u32) as u8]
}

/// The little-endian bytes of a run of 32-bit words, one word after another.
pub open spec fn le_words(ws: Seq<u32>) -> Seq<u8>
    decreases ws.len(),
{
    if ws.len() == 0 {
        Seq::empty()
    } else {
        le_words(ws.drop_last()) + le_bytes(ws.last())
    }
}

/// Append the little-endian bytes of `w`.
fn push_word(out: &mut Vec<u8>, w: u32)
    ensures
        final(out)@ == old(out)@ + le_bytes(w),
{
    let b0 = (w & 0xff) as u8;
    let b1 = ((w >> 8) & 0xff) as u8;
    let b2 = ((w >> 16) & 0xff) as u8;
    let b3 = (w >> 24) as u8;
    out.push(b0);
    out.push(b1);
    out.push(b2);
    out.push(b3);
    assert(out@ =~= old(out)@ + le_bytes(w));
}

/// Append the little-endian bytes of every word of `ws`, in order.
fn push_words(out: &mut Vec<u8>, ws: &[u32])
    ensures
        final(out)@ == old(out)@ + le_words(ws@),
{
    let mut i: usize = 0;
    while i < ws.len()
        invariant
            i <= ws@.len(),
            out@ == old(out)@ + le_words(ws@.take(i as int)),
        decreases ws@.len() - i,
    {
        let ghost before = out@;
        push_word(out, ws[i]);
        proof {
            assert(ws@.take(i + 1).drop_last() =~= ws@.take(i as int));
            assert(ws@.take(i + 1).last() == ws@[i as int]);
            assert(out@ =~= old(out)@ + le_words(ws@.take(i + 1)));
        }
        i = i + 1;
    }
    assert(ws@.take(ws@.len() as int) =~= ws@);
}

/// A cohort file: the row count and the row width as 32-bit words (taken
/// modulo 2^32), then every word of the rows.
pub fn cohort_bytes(words: &[u32], n_rows: usize, row_words: usize) -> (out: Vec<u8>)
    requires
        words@.len() == n_rows * row_words,
    ensures
        out@ == le_bytes(n_rows as u32) + le_bytes(row_words as u32) + le_words(words@),
{
    let mut out: Vec<u8> = Vec::new();
    push_word(&mut out, n_rows as u32);
    push_word(&mut out, row_words as u32);
    push_words(&mut out, words);
    out
}

/// A streamed frame of one finished game: its row count as a 32-bit word
/// (modulo 2^32), then every word of its rows.
pub fn frame_bytes(words: &[u32], n_rows: usize) -> (out: Vec<u8>)
    ensures
        out@ == le_bytes(n_rows as u32) + le_words(words@),
{
    let mut out: Vec<u8> = Vec::new();
    push_word(&mut out, n_rows as u32);
    push_words(&mut out, words);
    out
}

/// The number four little-endian bytes stand for.
pub open spec fn le_value(b: Seq<u8>) -> int {
    b[0] + 256 * b[1] + 65536 * b[2] + 16777216 * b[3]
}

/// The bytes of a word read back as that word, and a run of words takes four
/// bytes each, so a reader finds word `i` at bytes `4i..4i+4`.
pub proof fn lemma_le_words(ws: Seq<u32>, i: int)
    requires
        0 <= i < ws.len(),
    ensures
        le_words(ws).len() == 4 * ws.len(),
        le_value(le_words(ws).subrange(4 * i, 4 * i + 4)) == ws[i],
    decreases ws.len(),
{
    lemma_le_words_len(ws);
    let w = ws[i];
    if i == ws.len() - 1 {
        lemma_le_words_len(ws.drop_last());
        assert(le_words(ws).subrange(4 * i, 4 * i + 4) =~= le_bytes(w));
        let b0 = (w & 0xff) as u8;
        let b1 = ((w >> 8u32) & 0xff) as u8;
        let b2 = ((w >> 16u32) & 0xff) as u8;
        let b3 = (w >> 24u32) as u8;
        assert(b0 + 256 * b1 + 65536 * b2 + 16777216 * b3 == w) by (bit_vector)
            requires
                b0 == (w & 0xff) as u8,
                b1 == ((w >> 8u32) & 0xff) as u8,
                b2 == ((w >> 16u32) & 0xff) as u8,
                b3 == (w >> 24u32) as u8,
        ;
    } else {
        lemma_le_words(ws.drop_last(), i);
        lemma_le_words_len(ws.drop_last());
        assert(le_words(ws).subrange(4 * i, 4 * i + 4) =~= le_words(ws.drop_last()).subrange(
            4 * i,
            4 * i + 4,
        ));
    }
}

proof fn lemma_le_words_len(ws: Seq<u32>)
    ensures
        le_words(ws).len() == 4 * ws.len(),
    decreases ws.len(),
{
    if ws.len() > 0 {
        lemma_le_words_len(ws.drop_last());
    }
}

} // verus!
