//! Splitting long text into word windows for indexing.
//!
//! Paragraphs (separated by a blank line) are split first, so that a short
//! paragraph stays whole; a paragraph with more words than a chunk holds is
//! cut into windows that overlap.

use crate::text::{self, chars_of, slice_to_string};
use vstd::prelude::*;

verus! {

// ---------------------------------------------------------------------
// Specification
// ---------------------------------------------------------------------

/// Unicode's `White_Space` property.
pub open spec fn is_space(c: char) -> bool {
    let u = c as u32;
    ||| 0x09 <= u <= 0x0d
    ||| u == 0x20
    ||| u == 0x85
    ||| u == 0xa0
    ||| u == 0x1680
    ||| 0x2000 <= u <= 0x200a
    ||| u == 0x2028
    ||| u == 0x2029
    ||| u == 0x202f
    ||| u == 0x205f
    ||| u == 0x3000
}

/// Of the characters of ASCII, the tab, the four that end a line or a page, and the
/// space are white space and no others; so is the space that does not break, and
/// no letter is, whatever its script.
pub proof fn blanks_are_white_space(c: char)
    ensures
        (c as u32) < 0x80 ==> (is_space(c) <==> c == '\t' || c == '\n' || c == '\u{b}' || c
            == '\u{c}' || c == '\r' || c == ' '),
        is_space('\u{85}') && is_space('\u{a0}') && is_space('\u{1680}'),
        0x2000 <= (c as u32) <= 0x200a ==> is_space(c),
        is_space('\u{2028}') && is_space('\u{2029}') && is_space('\u{202f}'),
        is_space('\u{205f}') && is_space('\u{3000}'),
        is_space(c) ==> (c as u32) <= 0x3000,
        0xa0 < (c as u32) < 0x1680 ==> !is_space(c),
        0x1680 < (c as u32) < 0x2000 ==> !is_space(c),
{
}

/// The length of the longest prefix of `s` whose characters are all white
/// space (`space`) or all not (`!space`).
pub open spec fn run(s: Seq<char>, space: bool) -> nat
    decreases s.len(),
{
    if s.len() == 0 || is_space(s[0]) != space {
        0
    } else {
        1 + run(s.skip(1), space)
    }
}

/// The maximal stretches of `s` without white space, in order.
pub open spec fn words(s: Seq<char>) -> Seq<Seq<char>>
    decreases s.len(),
    via words_decreases
{
    let t = s.skip(run(s, true) as int);
    if t.len() == 0 {
        Seq::empty()
    } else {
        seq![t.take(run(t, false) as int)] + words(t.skip(run(t, false) as int))
    }
}

#[via_fn]
proof fn words_decreases(s: Seq<char>) {
    lemma_run(s, true);
    let t = s.skip(run(s, true) as int);
    lemma_run(t, false);
    if t.len() > 0 {
        assert(run(t, false) > 0) by {
            assert(t[0] == s[run(s, true) as int]);
        }
    }
}

/// The pieces of `s` between blank lines: `s` cut at each occurrence of two
/// line feeds, found from left to right without overlap.
pub open spec fn blocks(s: Seq<char>) -> Seq<Seq<char>> {
    blocks_from(s, 0)
}

/// [`blocks`], where the first `seen` characters belong to the first piece.
pub open spec fn blocks_from(s: Seq<char>, seen: nat) -> Seq<Seq<char>>
    decreases s.len() - seen,
{
    if seen + 1 >= s.len() {
        seq![s]
    } else if s[seen as int] == '\n' && s[seen as int + 1] == '\n' {
        seq![s.take(seen as int)] + blocks_from(s.skip(seen as int + 2), 0)
    } else {
        blocks_from(s, seen + 1)
    }
}

/// `ws` joined by single spaces.
pub open spec fn spaced(ws: Seq<Seq<char>>) -> Seq<char>
    decreases ws.len(),
{
    if ws.len() == 0 {
        Seq::empty()
    } else if ws.len() == 1 {
        ws[0]
    } else {
        spaced(ws.drop_last()) + seq![' '] + ws.last()
    }
}

/// Words are joined by one space each: one more word comes behind a space, and the
/// first stands alone.
pub proof fn words_are_joined_by_single_spaces(ws: Seq<Seq<char>>, w: Seq<char>)
    ensures
        spaced(Seq::empty()).len() == 0,
        ws.len() == 0 ==> spaced(ws.push(w)) == w,
        ws.len() > 0 ==> spaced(ws.push(w)) == spaced(ws) + " "@ + w,
{
    reveal_strlit(" ");
    assert(" "@ =~= seq![' ']);
    assert(ws.push(w).drop_last() =~= ws);
}

/// How far one window starts behind the one before it.
pub open spec fn stride(size: nat, overlap: nat) -> nat {
    if size > overlap {
        (size - overlap) as nat
    } else {
        1
    }
}

/// Where the window that starts at `start` ends.
pub open spec fn window_end(n: nat, size: nat, start: nat) -> nat {
    if start + size < n {
        start + size
    } else {
        n
    }
}

/// The windows over `ws` from position `start` on. The last one reaches the
/// end of `ws`.
pub open spec fn windows(ws: Seq<Seq<char>>, size: nat, step: nat, start: nat) -> Seq<Seq<char>>
    decreases (if start < ws.len() { ws.len() - start } else { 0 }),
{
    if start >= ws.len() || step == 0 {
        Seq::empty()
    } else {
        let end = window_end(ws.len(), size, start);
        let head = seq![spaced(ws.subrange(start as int, end as int))];
        if end == ws.len() {
            head
        } else {
            head + windows(ws, size, step, start + step)
        }
    }
}

/// The chunks of one block.
pub open spec fn block_chunks(block: Seq<char>, size: nat, overlap: nat) -> Seq<Seq<char>> {
    let ws = words(block);
    if ws.len() == 0 {
        Seq::empty()
    } else if ws.len() <= size {
        seq![spaced(ws)]
    } else {
        windows(ws, size, stride(size, overlap), 0)
    }
}

/// The chunks of the blocks `bs`, in order.
pub open spec fn chunks_of(bs: Seq<Seq<char>>, size: nat, overlap: nat) -> Seq<Seq<char>>
    decreases bs.len(),
{
    if bs.len() == 0 {
        Seq::empty()
    } else {
        chunks_of(bs.drop_last(), size, overlap) + block_chunks(bs.last(), size, overlap)
    }
}

// ---------------------------------------------------------------------
// Laws
// ---------------------------------------------------------------------

/// The window with number `j` starts `j` strides behind the first, has at most
/// as many words as a chunk may have, and is their text. Each but the last has
/// exactly as many words as that.
pub proof fn windows_are_strides(ws: Seq<Seq<char>>, size: nat, step: nat, start: nat, j: int)
    requires
        0 <= j < windows(ws, size, step, start).len(),
    ensures
        ({
            let from = (start + j * step) as nat;
            let to = window_end(ws.len(), size, from);
            &&& from < ws.len()
            &&& from <= to <= ws.len()
            &&& to - from <= size
            &&& j < windows(ws, size, step, start).len() - 1 ==> to - from == size
            &&& windows(ws, size, step, start)[j] == spaced(ws.subrange(from as int, to as int))
        }),
    decreases j,
{
    if j > 0 {
        windows_are_strides(ws, size, step, start + step, j - 1);
        assert(start + step + (j - 1) * step == start + j * step) by (nonlinear_arith);
        assert(windows(ws, size, step, start)[j] == windows(ws, size, step, start + step)[j - 1]);
    } else {
        assert(start + 0 * step == start);
    }
}

/// No word is lost: every word from `start` on stands in some window.
pub proof fn every_word_is_in_a_window(
    ws: Seq<Seq<char>>,
    size: nat,
    step: nat,
    start: nat,
    i: int,
) -> (j: int)
    requires
        0 < step <= size,
        start <= i < ws.len(),
    ensures
        0 <= j < windows(ws, size, step, start).len(),
        start + j * step <= i < window_end(ws.len(), size, (start + j * step) as nat),
    decreases ws.len() - start,
{
    let end = window_end(ws.len(), size, start);
    if i < end {
        assert(start + 0 * step == start);
        0
    } else {
        let rest = every_word_is_in_a_window(ws, size, step, start + step, i);
        assert(start + step + rest * step == start + (rest + 1) * step) by (nonlinear_arith);
        rest + 1
    }
}

/// A word: not empty, and without white space.
pub open spec fn is_word(w: Seq<char>) -> bool {
    w.len() > 0 && forall|i: int| 0 <= i < w.len() ==> !is_space(#[trigger] w[i])
}

/// A list of words, at least one and at most `size`.
pub open spec fn is_phrase(ws: Seq<Seq<char>>, size: nat) -> bool {
    1 <= ws.len() <= size && forall|i: int| 0 <= i < ws.len() ==> is_word(#[trigger] ws[i])
}

/// There are no chunks exactly when the text is all white space.
pub proof fn only_blank_texts_have_no_chunks(text: Seq<char>, size: nat, overlap: nat)
    ensures
        chunks_of(blocks(text), size, overlap).len() == 0 <==> forall|i: int|
            0 <= i < text.len() ==> is_space(#[trigger] text[i]),
{
    chunks_for_words(blocks(text), size, overlap);
    blank_blocks(text, 0);
    let bs = blocks(text);
    if chunks_of(bs, size, overlap).len() == 0 {
        assert forall|b: int, i: int| 0 <= b < bs.len() && 0 <= i < bs[b].len() implies is_space(
            #[trigger] bs[b][i],
        ) by {
            assert(words(bs[b]).len() == 0);
            words_are_words(bs[b]);
        }
    } else {
        let b = choose|b: int| 0 <= b < bs.len() && words(#[trigger] bs[b]).len() > 0;
        words_are_words(bs[b]);
        let i = choose|i: int| 0 <= i < bs[b].len() && !is_space(#[trigger] bs[b][i]);
        assert(!is_space(bs[b][i]));
    }
}

/// Every chunk is made of at least one and at most `size` words, joined by
/// single spaces.
pub proof fn chunks_are_phrases(text: Seq<char>, size: nat, overlap: nat, i: int) -> (ws: Seq<
    Seq<char>,
>)
    requires
        size >= 1,
        0 <= i < chunks_of(blocks(text), size, overlap).len(),
    ensures
        is_phrase(ws, size),
        chunks_of(blocks(text), size, overlap)[i] == spaced(ws),
{
    block_phrases(blocks(text), size, overlap, i)
}

/// Chunking a chunk gives it back.
pub proof fn a_chunk_is_its_own_chunk(text: Seq<char>, size: nat, overlap: nat, i: int)
    requires
        size >= 1,
        0 <= i < chunks_of(blocks(text), size, overlap).len(),
    ensures
        chunks_of(blocks(chunks_of(blocks(text), size, overlap)[i]), size, overlap) == seq![
            chunks_of(blocks(text), size, overlap)[i],
        ],
{
    let ws = chunks_are_phrases(text, size, overlap, i);
    let c = spaced(ws);
    words_of_spaced(ws);
    spaced_is_one_line(ws);
    one_block(c, 0);
    let bs = blocks(c);
    assert(bs =~= seq![c]);
    assert(bs.drop_last() =~= Seq::empty());
    assert(chunks_of(bs.drop_last(), size, overlap) =~= Seq::empty());
    assert(chunks_of(bs, size, overlap) =~= seq![c]);
}

/// The chunks of a block are runs of its words: chunk number `c` starts with the
/// word `c` strides behind the first, where a stride is the chunk size less the
/// overlap and at least one, and it has as many words as fit and are there. The
/// first chunk starts with the block's first word and the last one ends with its
/// last. A block that fits is one chunk, and one without words is none.
pub proof fn a_block_is_cut_into_runs_of_its_words(
    block: Seq<char>,
    size: nat,
    overlap: nat,
    step: int,
)
    requires
        size >= 1,
        overlap < size ==> step == size - overlap,
        overlap >= size ==> step == 1,
    ensures
        block_chunks(block, size, overlap).len() == 0 <==> words(block).len() == 0,
        1 <= words(block).len() <= size ==> block_chunks(block, size, overlap).len() == 1,
        words(block).len() > 0 ==> {
            let cs = block_chunks(block, size, overlap);
            &&& words(cs[0]).len() > 0
            &&& words(cs[0])[0] == words(block)[0]
            &&& words(cs[cs.len() - 1]).len() > 0
            &&& words(cs[cs.len() - 1]).last() == words(block).last()
        },
        forall|c: int|
            0 <= c < block_chunks(block, size, overlap).len() ==> is_run(
                words(block),
                c * step,
                size,
                words(#[trigger] block_chunks(block, size, overlap)[c]),
            ),
{
    let cs = block_chunks(block, size, overlap);
    let ws = words(block);
    words_are_words(block);
    assert forall|c: int| 0 <= c < cs.len() implies is_run(
        ws,
        c * step,
        size,
        words(#[trigger] cs[c]),
    ) by {
        chunk_is_a_run(block, size, overlap, step, c);
    }
    if ws.len() > 0 {
        assert(0 * step == 0);
        if ws.len() <= size {
            assert(is_run(ws, 0 * step, size, words(cs[0])));
        } else {
            last_window_reaches_the_end(ws, size, step as nat, 0);
            let n = cs.len() - 1;
            assert(is_run(ws, 0 * step, size, words(cs[0])));
            assert(is_run(ws, n * step, size, words(cs[n])));
            assert(words(cs[n]).last() == ws.last());
        }
    }
}

/// `run` is the words from number `from` on, `size` of them or all that are left,
/// and there is at least one.
pub open spec fn is_run(ws: Seq<Seq<char>>, from: int, size: nat, run: Seq<Seq<char>>) -> bool {
    &&& 0 <= from < ws.len()
    &&& run.len() == if from + size < ws.len() {
        size as int
    } else {
        ws.len() - from
    }
    &&& forall|i: int| 0 <= i < run.len() ==> #[trigger] run[i] == ws[from + i]
}

/// A chunk of a block is a run of its words.
proof fn chunk_is_a_run(block: Seq<char>, size: nat, overlap: nat, step: int, c: int)
    requires
        size >= 1,
        overlap < size ==> step == size - overlap,
        overlap >= size ==> step == 1,
        0 <= c < block_chunks(block, size, overlap).len(),
    ensures
        is_run(words(block), c * step, size, words(block_chunks(block, size, overlap)[c])),
{
    let cs = block_chunks(block, size, overlap);
    let ws = words(block);
    words_are_words(block);
    if ws.len() <= size {
        words_of_spaced(ws);
        assert(cs =~= seq![spaced(ws)]);
        assert(c == 0);
        assert(c * step == 0) by (nonlinear_arith)
            requires
                c == 0,
        ;
    } else {
        windows_are_strides(ws, size, step as nat, 0, c);
        assert(0 <= c * step) by (nonlinear_arith)
            requires
                0 <= c,
                0 < step,
        ;
        assert(step as nat == step);
        let from = c * step;
        let to = window_end(ws.len(), size, from as nat);
        let part = ws.subrange(from, to as int);
        assert forall|a: int| 0 <= a < part.len() implies is_word(#[trigger] part[a]) by {
            assert(part[a] == ws[from + a]);
        }
        words_of_spaced(part);
    }
}

/// The last window ends where the words end.
proof fn last_window_reaches_the_end(ws: Seq<Seq<char>>, size: nat, step: nat, start: nat)
    requires
        0 < step <= size,
        start < ws.len(),
    ensures
        ({
            let n = windows(ws, size, step, start).len() - 1;
            n >= 0 && window_end(ws.len(), size, (start + n * step) as nat) == ws.len()
        }),
    decreases ws.len() - start,
{
    let end = window_end(ws.len(), size, start);
    if end == ws.len() {
        assert(start + 0 * step == start);
    } else {
        last_window_reaches_the_end(ws, size, step, start + step);
        let m = windows(ws, size, step, start + step).len() - 1;
        assert(start + step + m * step == start + (m + 1) * step) by (nonlinear_arith);
    }
}

/// Where the chunks of a block stand among those of all blocks.
proof fn chunks_of_a_block(bs: Seq<Seq<char>>, size: nat, overlap: nat, b: int) -> (at: int)
    requires
        0 <= b < bs.len(),
    ensures
        0 <= at,
        at + block_chunks(bs[b], size, overlap).len() <= chunks_of(bs, size, overlap).len(),
        forall|c: int|
            0 <= c < block_chunks(bs[b], size, overlap).len() ==> chunks_of(bs, size, overlap)[at
                + c] == #[trigger] block_chunks(bs[b], size, overlap)[c],
    decreases bs.len(),
{
    let before = chunks_of(bs.drop_last(), size, overlap);
    if b == bs.len() - 1 {
        assert(bs[b] == bs.last());
        before.len() as int
    } else {
        assert(bs.drop_last()[b] == bs[b]);
        chunks_of_a_block(bs.drop_last(), size, overlap, b)
    }
}

/// No word of a text is lost by chunking: every word of every block of the text
/// stands in some chunk.
pub proof fn no_word_of_a_text_is_lost(
    text: Seq<char>,
    size: nat,
    overlap: nat,
    b: int,
    i: int,
) -> (c: int)
    requires
        size >= 1,
        0 <= b < blocks(text).len(),
        0 <= i < words(blocks(text)[b]).len(),
    ensures
        0 <= c < chunks_of(blocks(text), size, overlap).len(),
        words(chunks_of(blocks(text), size, overlap)[c]).contains(words(blocks(text)[b])[i]),
{
    let block = blocks(text)[b];
    let ws = words(block);
    let cs = block_chunks(block, size, overlap);
    let at = chunks_of_a_block(blocks(text), size, overlap, b);
    let step = stride(size, overlap);
    a_block_is_cut_into_runs_of_its_words(block, size, overlap, step as int);
    if ws.len() <= size {
        assert(0 * step == 0);
        assert(is_run(ws, 0 * (step as int), size, words(cs[0])));
        assert(words(cs[0])[i] == ws[i]);
        assert(chunks_of(blocks(text), size, overlap)[at + 0] == cs[0]);
        at
    } else {
        let c = every_word_is_in_a_window(ws, size, step, 0, i);
        assert(0 + c * step == c * step);
        let run = words(cs[c]);
        assert(is_run(ws, c * step, size, run));
        assert(run[i - c * step] == ws[i]);
        assert(chunks_of(blocks(text), size, overlap)[at + c] == cs[c]);
        at + c
    }
}

/// The chunks of a text reach the end of each of its blocks: for every block with
/// words there is a chunk that starts with the block's first word, and one that
/// ends with its last.
pub proof fn the_chunks_reach_the_ends_of_a_block(
    text: Seq<char>,
    size: nat,
    overlap: nat,
    b: int,
) -> (ends: (int, int))
    requires
        size >= 1,
        0 <= b < blocks(text).len(),
        words(blocks(text)[b]).len() > 0,
    ensures
        0 <= ends.0 <= ends.1 < chunks_of(blocks(text), size, overlap).len(),
        ({
            let first = words(chunks_of(blocks(text), size, overlap)[ends.0]);
            let last = words(chunks_of(blocks(text), size, overlap)[ends.1]);
            &&& first.len() > 0 && first[0] == words(blocks(text)[b])[0]
            &&& last.len() > 0 && last.last() == words(blocks(text)[b]).last()
        }),
{
    let block = blocks(text)[b];
    let cs = block_chunks(block, size, overlap);
    let at = chunks_of_a_block(blocks(text), size, overlap, b);
    a_block_is_cut_into_runs_of_its_words(
        block,
        size,
        overlap,
        if overlap < size {
            size - overlap
        } else {
            1
        },
    );
    assert(chunks_of(blocks(text), size, overlap)[at + 0] == cs[0]);
    assert(chunks_of(blocks(text), size, overlap)[at + (cs.len() - 1)] == cs[cs.len() - 1]);
    (at, at + cs.len() - 1)
}

/// Every chunk of a text has at least one word and at most as many as a chunk may
/// have.
pub proof fn chunks_keep_to_their_size(text: Seq<char>, size: nat, overlap: nat, c: int)
    requires
        size >= 1,
        0 <= c < chunks_of(blocks(text), size, overlap).len(),
    ensures
        1 <= words(chunks_of(blocks(text), size, overlap)[c]).len() <= size,
{
    let (b, i) = block_of_a_chunk(blocks(text), size, overlap, c);
    let block = blocks(text)[b];
    let step = if overlap < size {
        size - overlap
    } else {
        1
    };
    a_block_is_cut_into_runs_of_its_words(block, size, overlap, step);
    assert(is_run(
        words(block),
        i * step,
        size,
        words(block_chunks(block, size, overlap)[i]),
    ));
}

/// Chunks hold nothing but words of the text: every word of every chunk is a word
/// of some block.
pub proof fn chunks_hold_words_of_the_text(
    text: Seq<char>,
    size: nat,
    overlap: nat,
    c: int,
    i: int,
) -> (b: int)
    requires
        size >= 1,
        0 <= c < chunks_of(blocks(text), size, overlap).len(),
        0 <= i < words(chunks_of(blocks(text), size, overlap)[c]).len(),
    ensures
        0 <= b < blocks(text).len(),
        words(blocks(text)[b]).contains(words(chunks_of(blocks(text), size, overlap)[c])[i]),
{
    let (b, j) = block_of_a_chunk(blocks(text), size, overlap, c);
    let block = blocks(text)[b];
    let ws = words(block);
    let cs = block_chunks(block, size, overlap);
    let step: int = if overlap < size {
        size - overlap
    } else {
        1
    };
    a_block_is_cut_into_runs_of_its_words(block, size, overlap, step);
    assert(is_run(ws, j * step, size, words(cs[j])));
    assert(words(cs[j])[i] == ws[j * step + i]);
    b
}

/// The block that a chunk comes from, and its number among the chunks of that
/// block.
proof fn block_of_a_chunk(bs: Seq<Seq<char>>, size: nat, overlap: nat, c: int) -> (r: (int, int))
    requires
        0 <= c < chunks_of(bs, size, overlap).len(),
    ensures
        0 <= r.0 < bs.len(),
        0 <= r.1 < block_chunks(bs[r.0], size, overlap).len(),
        chunks_of(bs, size, overlap)[c] == block_chunks(bs[r.0], size, overlap)[r.1],
    decreases bs.len(),
{
    let before = chunks_of(bs.drop_last(), size, overlap);
    if c < before.len() {
        let r = block_of_a_chunk(bs.drop_last(), size, overlap, c);
        assert(bs.drop_last()[r.0] == bs[r.0]);
        r
    } else {
        assert(bs[bs.len() - 1] == bs.last());
        (bs.len() - 1, c - before.len())
    }
}

/// Blocks with a blank line between each and the next.
pub open spec fn rejoined(bs: Seq<Seq<char>>) -> Seq<char>
    decreases bs.len(),
{
    if bs.len() == 0 {
        Seq::empty()
    } else if bs.len() == 1 {
        bs[0]
    } else {
        bs[0] + seq!['\n', '\n'] + rejoined(bs.skip(1))
    }
}

/// A text is its blocks with blank lines between them, and no block holds a blank
/// line.
pub proof fn blocks_are_what_blank_lines_part(text: Seq<char>)
    ensures
        blocks(text).len() > 0,
        rejoined(blocks(text)) == text,
        forall|b: int, i: int|
            0 <= b < blocks(text).len() && 0 <= i < blocks(text)[b].len() - 1 ==> !(
            #[trigger] blocks(text)[b][i] == '\n' && blocks(text)[b][i + 1] == '\n'),
{
    blocks_part(text, 0);
}

proof fn blocks_part(s: Seq<char>, seen: nat)
    requires
        seen <= s.len(),
        forall|p: int|
            0 <= p < seen && p + 1 < s.len() ==> !(#[trigger] s[p] == '\n' && s[p + 1] == '\n'),
    ensures
        blocks_from(s, seen).len() > 0,
        rejoined(blocks_from(s, seen)) == s,
        forall|b: int, i: int|
            0 <= b < blocks_from(s, seen).len() && 0 <= i < blocks_from(s, seen)[b].len() - 1 ==> !(
            #[trigger] blocks_from(s, seen)[b][i] == '\n' && blocks_from(s, seen)[b][i + 1]
                == '\n'),
    decreases s.len() - seen,
{
    let bs = blocks_from(s, seen);
    if seen + 1 >= s.len() {
        assert(bs[0] == s);
    } else if s[seen as int] == '\n' && s[seen as int + 1] == '\n' {
        let head = s.take(seen as int);
        let rest = s.skip(seen as int + 2);
        let more = blocks_from(rest, 0);
        blocks_part(rest, 0);
        assert(bs == seq![head] + more);
        assert(bs.skip(1) =~= more);
        assert(head + seq!['\n', '\n'] + rest =~= s);
        assert forall|b: int, i: int| 0 <= b < bs.len() && 0 <= i < bs[b].len() - 1 implies !(
        #[trigger] bs[b][i] == '\n' && bs[b][i + 1] == '\n') by {
            if b == 0 {
                assert(bs[0] == head);
                assert(head[i] == s[i] && head[i + 1] == s[i + 1]);
            } else {
                assert(bs[b] == more[b - 1]);
                assert(!(more[b - 1][i] == '\n' && more[b - 1][i + 1] == '\n'));
            }
        }
    } else {
        blocks_part(s, seen + 1);
    }
}

/// The words of a text are all of it but the white space: put together they are
/// its other characters, in order.
pub proof fn words_are_all_but_white_space(s: Seq<char>)
    ensures
        words(s).flatten() == s.filter(|c: char| !is_space(c)),
        forall|i: int| 0 <= i < words(s).len() ==> is_word(#[trigger] words(s)[i]),
    decreases s.len(),
{
    let keep = |c: char| !is_space(c);
    lemma_run(s, true);
    words_are_words(s);
    let lead = run(s, true) as int;
    let t = s.skip(lead);
    assert(s =~= s.take(lead) + t);
    all_dropped(s.take(lead));
    Seq::filter_distributes_over_add(s.take(lead), t, keep);
    assert(s.filter(keep) =~= t.filter(keep));
    if t.len() > 0 {
        lemma_run(t, false);
        assert(t[0] == s[lead]);
        let n = run(t, false) as int;
        let w = t.take(n);
        let rest = t.skip(n);
        words_are_all_but_white_space(rest);
        assert(t =~= w + rest);
        Seq::filter_distributes_over_add(w, rest, keep);
        all_kept(w);
        assert(words(s) == seq![w] + words(rest));
        assert((seq![w] + words(rest)).drop_first() =~= words(rest));
        assert(words(s).flatten() =~= w + words(rest).flatten());
    } else {
        assert(words(s) =~= Seq::empty());
        assert(t =~= Seq::empty());
        reveal(Seq::filter);
        assert(words(s).flatten() =~= Seq::empty());
    }
}

proof fn all_dropped(s: Seq<char>)
    requires
        forall|i: int| 0 <= i < s.len() ==> is_space(#[trigger] s[i]),
    ensures
        s.filter(|c: char| !is_space(c)) == Seq::<char>::empty(),
    decreases s.len(),
{
    reveal(Seq::filter);
    if s.len() > 0 {
        assert(is_space(s.last()));
        let init = s.drop_last();
        assert(forall|i: int| 0 <= i < init.len() ==> #[trigger] init[i] == s[i]);
        all_dropped(init);
    }
}

proof fn all_kept(s: Seq<char>)
    requires
        forall|i: int| 0 <= i < s.len() ==> !is_space(#[trigger] s[i]),
    ensures
        s.filter(|c: char| !is_space(c)) == s,
    decreases s.len(),
{
    reveal(Seq::filter);
    if s.len() > 0 {
        assert(!is_space(s.last()));
        let init = s.drop_last();
        assert(forall|i: int| 0 <= i < init.len() ==> #[trigger] init[i] == s[i]);
        all_kept(init);
        assert(init.push(s.last()) =~= s);
    }
}

/// Two words that a stretch of white space parts are two words, whatever the
/// white space is.
pub proof fn white_space_parts_words(a: Seq<char>, gap: Seq<char>, b: Seq<char>)
    requires
        is_word(a),
        is_word(b),
        gap.len() > 0,
        forall|i: int| 0 <= i < gap.len() ==> is_space(#[trigger] gap[i]),
    ensures
        words(a + gap + b) == seq![a, b],
{
    let tail = gap + b;
    assert(a + gap + b =~= a + tail);
    assert(tail[0] == gap[0]);
    first_word(a, tail);
    blank_before_words(gap, b);
    assert(b + Seq::<char>::empty() =~= b);
    first_word(b, Seq::empty());
    assert(words(Seq::<char>::empty()) =~= Seq::empty()) by {
        lemma_run(Seq::empty(), true);
    }
    assert(words(b) =~= seq![b]);
    assert(seq![a] + seq![b] =~= seq![a, b]);
}

/// A word with white space or nothing behind it is the first word.
proof fn first_word(a: Seq<char>, rest: Seq<char>)
    requires
        is_word(a),
        rest.len() > 0 ==> is_space(rest[0]),
    ensures
        words(a + rest) == seq![a] + words(rest),
{
    let s = a + rest;
    let n = a.len() as int;
    assert(s[0] == a[0]);
    lemma_run_is(s, true, 0);
    assert(s.skip(0) =~= s);
    assert forall|i: int| 0 <= i < n implies !is_space(#[trigger] s[i]) by {
        assert(s[i] == a[i]);
    }
    if rest.len() > 0 {
        assert(s[n] == rest[0]);
    }
    lemma_run_is(s, false, a.len());
    assert(s.take(n) =~= a);
    assert(s.skip(n) =~= rest);
}

/// White space before words changes nothing.
proof fn blank_before_words(gap: Seq<char>, b: Seq<char>)
    requires
        is_word(b),
        forall|i: int| 0 <= i < gap.len() ==> is_space(#[trigger] gap[i]),
    ensures
        words(gap + b) == words(b),
{
    let s = gap + b;
    let m = gap.len() as int;
    assert forall|i: int| 0 <= i < m implies is_space(#[trigger] s[i]) by {
        assert(s[i] == gap[i]);
    }
    assert(s[m] == b[0]);
    lemma_run_is(s, true, gap.len());
    assert(s.skip(m) =~= b);
    lemma_run_is(b, true, 0);
    assert(b.skip(0) =~= b);
}

// ---------------------------------------------------------------------
// Lemmas
// ---------------------------------------------------------------------

/// The words of a text are words, and there is none exactly when the text is
/// all white space.
proof fn words_are_words(s: Seq<char>)
    ensures
        forall|i: int| 0 <= i < words(s).len() ==> is_word(#[trigger] words(s)[i]),
        words(s).len() == 0 <==> forall|i: int| 0 <= i < s.len() ==> is_space(#[trigger] s[i]),
    decreases s.len(),
{
    lemma_run(s, true);
    let lead = run(s, true) as int;
    let t = s.skip(lead);
    if t.len() > 0 {
        lemma_run(t, false);
        assert(t[0] == s[lead]);
        let w = t.take(run(t, false) as int);
        let rest = t.skip(run(t, false) as int);
        assert(run(t, false) > 0);
        assert(is_word(w));
        words_are_words(rest);
        assert(words(s) == seq![w] + words(rest));
        assert forall|i: int| 0 <= i < words(s).len() implies is_word(#[trigger] words(s)[i]) by {
            if i > 0 {
                assert(words(s)[i] == words(rest)[i - 1]);
            }
        }
    }
}

/// Blocks give chunks exactly when one of them has words.
proof fn chunks_for_words(bs: Seq<Seq<char>>, size: nat, overlap: nat)
    ensures
        chunks_of(bs, size, overlap).len() > 0 <==> exists|b: int|
            0 <= b < bs.len() && words(#[trigger] bs[b]).len() > 0,
    decreases bs.len(),
{
    if bs.len() > 0 {
        let init = bs.drop_last();
        chunks_for_words(init, size, overlap);
        assert(forall|b: int| 0 <= b < init.len() ==> (#[trigger] init[b]) == bs[b]);
        assert(bs[bs.len() - 1] == bs.last());
        let ws = words(bs.last());
        if ws.len() > size {
            assert(windows(ws, size, stride(size, overlap), 0).len() > 0);
        }
        if exists|b: int| 0 <= b < bs.len() && words(#[trigger] bs[b]).len() > 0 {
            let b = choose|b: int| 0 <= b < bs.len() && words(#[trigger] bs[b]).len() > 0;
            if b < init.len() {
                assert(words(init[b]).len() > 0);
            }
        }
        if exists|b: int| 0 <= b < init.len() && words(#[trigger] init[b]).len() > 0 {
            let b = choose|b: int| 0 <= b < init.len() && words(#[trigger] init[b]).len() > 0;
            assert(words(bs[b]).len() > 0);
        }
    }
}

/// A text is all white space exactly when all its blocks are.
proof fn blank_blocks(s: Seq<char>, seen: nat)
    requires
        seen <= s.len(),
    ensures
        (forall|i: int| 0 <= i < s.len() ==> is_space(#[trigger] s[i])) <==> forall|b: int, i: int|
            0 <= b < blocks_from(s, seen).len() && 0 <= i < blocks_from(s, seen)[b].len()
                ==> is_space(#[trigger] blocks_from(s, seen)[b][i]),
    decreases s.len() - seen,
{
    let bs = blocks_from(s, seen);
    if seen + 1 >= s.len() {
        assert(bs[0] == s);
        if forall|b: int, i: int|
            0 <= b < bs.len() && 0 <= i < bs[b].len() ==> is_space(#[trigger] bs[b][i]) {
            assert forall|i: int| 0 <= i < s.len() implies is_space(#[trigger] s[i]) by {
                assert(is_space(bs[0][i]));
            }
        }
    } else if s[seen as int] == '\n' && s[seen as int + 1] == '\n' {
        let head = s.take(seen as int);
        let rest = s.skip(seen as int + 2);
        let more = blocks_from(rest, 0);
        blank_blocks(rest, 0);
        assert(bs == seq![head] + more);
        assert(bs[0] == head);
        if forall|i: int| 0 <= i < s.len() ==> is_space(#[trigger] s[i]) {
            assert forall|i: int| 0 <= i < rest.len() implies is_space(#[trigger] rest[i]) by {
                assert(rest[i] == s[seen + 2 + i]);
            }
            assert forall|b: int, i: int| 0 <= b < bs.len() && 0 <= i < bs[b].len() implies is_space(
                #[trigger] bs[b][i],
            ) by {
                if b == 0 {
                    assert(bs[b][i] == s[i]);
                } else {
                    assert(bs[b] == more[b - 1]);
                    assert(is_space(more[b - 1][i]));
                }
            }
        }
        if forall|b: int, i: int|
            0 <= b < bs.len() && 0 <= i < bs[b].len() ==> is_space(#[trigger] bs[b][i]) {
            assert forall|b: int, i: int|
                0 <= b < more.len() && 0 <= i < more[b].len() implies is_space(
                #[trigger] more[b][i],
            ) by {
                assert(bs[b + 1] == more[b]);
                assert(is_space(bs[b + 1][i]));
            }
            assert forall|i: int| 0 <= i < s.len() implies is_space(#[trigger] s[i]) by {
                if i < seen {
                    assert(is_space(bs[0][i]));
                } else if i >= seen + 2 {
                    assert(is_space(rest[i - seen - 2]));
                }
            }
        }
    } else {
        blank_blocks(s, seen + 1);
    }
}

/// Each chunk of some blocks is a phrase.
proof fn block_phrases(bs: Seq<Seq<char>>, size: nat, overlap: nat, i: int) -> (ws: Seq<Seq<char>>)
    requires
        size >= 1,
        0 <= i < chunks_of(bs, size, overlap).len(),
    ensures
        is_phrase(ws, size),
        chunks_of(bs, size, overlap)[i] == spaced(ws),
    decreases bs.len(),
{
    let before = chunks_of(bs.drop_last(), size, overlap);
    if i < before.len() {
        block_phrases(bs.drop_last(), size, overlap, i)
    } else {
        let all = words(bs.last());
        words_are_words(bs.last());
        if all.len() <= size {
            all
        } else {
            let step = stride(size, overlap);
            let j = i - before.len();
            windows_are_strides(all, size, step, 0, j);
            let from = (0 + j * step) as nat;
            let to = window_end(all.len(), size, from);
            let ws = all.subrange(from as int, to as int);
            assert forall|a: int| 0 <= a < ws.len() implies is_word(#[trigger] ws[a]) by {
                assert(ws[a] == all[from + a]);
            }
            ws
        }
    }
}

/// Words joined by spaces are the first word, a space and the others joined.
proof fn spaced_front(ws: Seq<Seq<char>>)
    requires
        ws.len() >= 2,
    ensures
        spaced(ws) == ws[0] + seq![' '] + spaced(ws.skip(1)),
    decreases ws.len(),
{
    let rest = ws.skip(1);
    if ws.len() == 2 {
        assert(spaced(ws.drop_last()) == ws[0]);
        assert(spaced(rest) == ws[1]);
        assert(spaced(ws) == spaced(ws.drop_last()) + seq![' '] + ws.last());
        assert(spaced(ws) =~= ws[0] + seq![' '] + spaced(rest));
    } else {
        let init = ws.drop_last();
        spaced_front(init);
        assert(init.skip(1) =~= rest.drop_last());
        assert(rest.last() == ws.last());
        assert(spaced(ws) =~= ws[0] + seq![' '] + spaced(rest));
    }
}

/// The words of words joined by spaces are those words.
proof fn words_of_spaced(ws: Seq<Seq<char>>)
    requires
        ws.len() >= 1,
        forall|i: int| 0 <= i < ws.len() ==> is_word(#[trigger] ws[i]),
    ensures
        words(spaced(ws)) == ws,
        spaced(ws).len() > 0,
        !is_space(spaced(ws)[0]),
    decreases ws.len(),
{
    let s = spaced(ws);
    let w = ws[0];
    assert(is_word(w));
    if ws.len() == 1 {
        assert(s == w);
        lemma_run_is(s, true, 0);
        assert(s.skip(0) =~= s);
        lemma_run_is(s, false, s.len());
        assert(s.take(s.len() as int) =~= s);
        let end = s.skip(s.len() as int);
        assert(end.len() == 0);
        assert(words(end) =~= Seq::empty()) by {
            lemma_run(end, true);
        }
        assert(words(s) =~= ws);
    } else {
        let rest = ws.skip(1);
        assert forall|i: int| 0 <= i < rest.len() implies is_word(#[trigger] rest[i]) by {
            assert(rest[i] == ws[i + 1]);
        }
        words_of_spaced(rest);
        spaced_front(ws);
        let r = spaced(rest);
        let n = w.len() as int;
        assert(s[0] == w[0]);
        lemma_run_is(s, true, 0);
        assert(s.skip(0) =~= s);
        assert forall|i: int| 0 <= i < n implies !is_space(#[trigger] s[i]) by {
            assert(s[i] == w[i]);
        }
        assert(s[n] == ' ');
        lemma_run_is(s, false, w.len());
        assert(s.take(n) =~= w);
        let tail = s.skip(n);
        assert(tail =~= seq![' '] + r);
        assert(tail[0] == ' ' && tail[1] == r[0]);
        lemma_run_is(tail, true, 1);
        assert(tail.skip(1) =~= r);
        lemma_run_is(r, true, 0);
        assert(r.skip(0) =~= r);
        assert(words(tail) == words(r));
        assert(words(s) =~= seq![w] + words(tail));
        assert(seq![w] + rest =~= ws);
    }
}

/// Words joined by spaces hold no line feed.
proof fn spaced_is_one_line(ws: Seq<Seq<char>>)
    requires
        forall|i: int| 0 <= i < ws.len() ==> is_word(#[trigger] ws[i]),
    ensures
        forall|i: int| 0 <= i < spaced(ws).len() ==> (#[trigger] spaced(ws)[i]) != '\n',
    decreases ws.len(),
{
    if ws.len() == 1 {
        assert(is_word(ws[0]));
    } else if ws.len() > 1 {
        let init = ws.drop_last();
        assert forall|i: int| 0 <= i < init.len() implies is_word(#[trigger] init[i]) by {
            assert(init[i] == ws[i]);
        }
        spaced_is_one_line(init);
        assert(is_word(ws[ws.len() - 1]));
        let a = spaced(init);
        let s = spaced(ws);
        assert forall|i: int| 0 <= i < s.len() implies (#[trigger] s[i]) != '\n' by {
            if i < a.len() {
                assert(s[i] == a[i]);
            } else if i > a.len() {
                assert(s[i] == ws.last()[i - a.len() - 1]);
            }
        }
    }
}

/// A text without line feeds is one block.
proof fn one_block(s: Seq<char>, seen: nat)
    requires
        forall|i: int| 0 <= i < s.len() ==> (#[trigger] s[i]) != '\n',
    ensures
        blocks_from(s, seen) == seq![s],
    decreases s.len() - seen,
{
    if seen + 1 < s.len() {
        assert(s[seen as int] != '\n');
        one_block(s, seen + 1);
    }
}


/// A run is a prefix of its kind, and what follows it is of the other kind.
pub proof fn lemma_run(s: Seq<char>, space: bool)
    ensures
        run(s, space) <= s.len(),
        forall|i: int| 0 <= i < run(s, space) ==> is_space(#[trigger] s[i]) == space,
        run(s, space) < s.len() ==> is_space(s[run(s, space) as int]) != space,
    decreases s.len(),
{
    if s.len() > 0 && is_space(s[0]) == space {
        lemma_run(s.skip(1), space);
        assert forall|i: int| 0 <= i < run(s, space) implies is_space(#[trigger] s[i]) == space by {
            if i > 0 {
                assert(s[i] == s.skip(1)[i - 1]);
            }
        }
    }
}

/// A run is known by its length: `n` characters of one kind and then one of
/// the other kind, or the end.
proof fn lemma_run_is(s: Seq<char>, space: bool, n: nat)
    requires
        n <= s.len(),
        forall|i: int| 0 <= i < n ==> is_space(#[trigger] s[i]) == space,
        n < s.len() ==> is_space(s[n as int]) != space,
    ensures
        run(s, space) == n,
    decreases n,
{
    if n > 0 {
        let t = s.skip(1);
        assert forall|i: int| 0 <= i < n - 1 implies is_space(#[trigger] t[i]) == space by {
            assert(t[i] == s[i + 1]);
        }
        lemma_run_is(t, space, (n - 1) as nat);
    }
}

// ---------------------------------------------------------------------
// Executable code
// ---------------------------------------------------------------------

/// Whether `c` is white space.
pub fn is_whitespace(c: char) -> (r: bool)
    ensures
        r == is_space(c),
{
    let u: u32 = c as u32;
    (0x09 <= u && u <= 0x0d) || u == 0x20 || u == 0x85 || u == 0xa0 || u == 0x1680 || (0x2000 <= u
        && u <= 0x200a) || u == 0x2028 || u == 0x2029 || u == 0x202f || u == 0x205f || u == 0x3000
}

/// The end of the run of the given kind that starts at `from`.
fn run_end(cs: &Vec<char>, from: usize, to: usize, space: bool) -> (r: usize)
    requires
        from <= to <= cs@.len(),
    ensures
        from <= r <= to,
        r - from == run(cs@.subrange(from as int, to as int), space),
{
    let mut i: usize = from;
    let ghost s = cs@.subrange(from as int, to as int);
    while i < to && is_whitespace(cs[i]) == space
        invariant
            from <= i <= to <= cs@.len(),
            s == cs@.subrange(from as int, to as int),
            forall|j: int| 0 <= j < i - from ==> is_space(#[trigger] s[j]) == space,
        decreases to - i,
    {
        assert(s[i - from] == cs@[i as int]);
        i += 1;
    }
    proof {
        if i < to {
            assert(s[i - from] == cs@[i as int]);
        }
        lemma_run_is(s, space, (i - from) as nat);
    }
    i
}

/// The words of `cs[from..to]`.
fn split_words(cs: &Vec<char>, from: usize, to: usize) -> (r: Vec<String>)
    requires
        from <= to <= cs@.len(),
    ensures
        text::texts(r@) == words(cs@.subrange(from as int, to as int)),
{
    let mut out: Vec<String> = Vec::new();
    let mut at: usize = run_end(cs, from, to, true);
    let ghost all = cs@.subrange(from as int, to as int);
    let ghost mut rest = all;
    assert(text::texts(out@) + words(rest) =~= words(all));
    assert(rest.skip(run(rest, true) as int) =~= cs@.subrange(at as int, to as int));
    while at < to
        invariant
            from <= at <= to <= cs@.len(),
            text::texts(out@) + words(rest) == words(all),
            rest.skip(run(rest, true) as int) == cs@.subrange(at as int, to as int),
        decreases to - at,
    {
        let ghost t = rest.skip(run(rest, true) as int);
        let end = run_end(cs, at, to, false);
        proof {
            lemma_run(rest, true);
            lemma_run(t, false);
            assert(t[0] == rest[run(rest, true) as int]);
            assert(is_space(t[0]) == false);
            assert(run(t, false) > 0);
        }
        let word = slice_to_string(cs, at, end);
        assert(word@ =~= t.take(run(t, false) as int));
        let ghost before = text::texts(out@);
        out.push(word);
        let next = run_end(cs, end, to, true);
        proof {
            let after = t.skip(run(t, false) as int);
            assert(words(rest) == seq![t.take(run(t, false) as int)] + words(after));
            assert(text::texts(out@) =~= before.push(t.take(run(t, false) as int)));
            assert(text::texts(out@) + words(after) =~= before + words(rest));
            rest = after;
            assert(rest =~= cs@.subrange(end as int, to as int));
            assert(rest.skip(run(rest, true) as int) =~= cs@.subrange(next as int, to as int));
        }
        at = next;
    }
    proof {
        assert(rest.skip(run(rest, true) as int).len() == 0);
        assert(text::texts(out@) + words(rest) =~= text::texts(out@));
    }
    out
}

/// Joins `ws[from..to]` by single spaces.
fn join_words(ws: &Vec<String>, from: usize, to: usize) -> (r: String)
    requires
        from <= to <= ws@.len(),
    ensures
        r@ == spaced(text::texts(ws@).subrange(from as int, to as int)),
{
    let mut out = String::new();
    let mut i: usize = from;
    let ghost all = text::texts(ws@);
    while i < to
        invariant
            from <= i <= to <= ws@.len(),
            all == text::texts(ws@),
            out@ == spaced(all.subrange(from as int, i as int)),
        decreases to - i,
    {
        let ghost next = all.subrange(from as int, i + 1);
        assert(next.drop_last() =~= all.subrange(from as int, i as int));
        assert(next.last() == ws@[i as int]@);
        if i > from {
            out.push(' ');
        }
        out.append(&ws[i]);
        assert(out@ =~= spaced(next));
        i += 1;
    }
    out
}

/// Pushes the windows over `ws` onto `out`.
fn push_windows(out: &mut Vec<String>, ws: &Vec<String>, size: usize, step: usize)
    requires
        step > 0,
        size < ws@.len(),
        step <= size || step == 1,
    ensures
        text::texts(final(out)@) == text::texts(old(out)@) + windows(text::texts(ws@), size as nat, step as nat, 0),
{
    let n = ws.len();
    let ghost all = text::texts(ws@);
    let ghost base = text::texts(out@);
    let mut start: usize = 0;
    let mut done: bool = false;
    assert(text::texts(out@) + windows(all, size as nat, step as nat, 0) =~= base + windows(
        all,
        size as nat,
        step as nat,
        0,
    ));
    while !done && start < n
        invariant
            n == ws@.len(),
            all == text::texts(ws@),
            step > 0,
            size < n,
            step <= size || step == 1,
            start <= n,
            !done ==> text::texts(out@) + windows(all, size as nat, step as nat, start as nat) == base
                + windows(all, size as nat, step as nat, 0),
            done ==> text::texts(out@) == base + windows(all, size as nat, step as nat, 0),
        decreases n - start, (if done { 0int } else { 1int }),
    {
        let end = if size < n - start {
            start + size
        } else {
            n
        };
        let piece = join_words(ws, start, end);
        let ghost before = text::texts(out@);
        let ghost tail = windows(all, size as nat, step as nat, start as nat);
        out.push(piece);
        assert(text::texts(out@) =~= before.push(piece@));
        assert(end == window_end(all.len(), size as nat, start as nat));
        if end == n {
            assert(tail =~= seq![piece@]);
            assert(text::texts(out@) =~= before + tail);
            done = true;
        } else {
            assert(tail =~= seq![piece@] + windows(all, size as nat, step as nat, (start + step) as nat));
            assert(text::texts(out@) + windows(all, size as nat, step as nat, (start + step) as nat)
                =~= before + tail);
            start = start + step;
        }
    }
    proof {
        if !done {
            assert(windows(all, size as nat, step as nat, start as nat) =~= Seq::empty());
            assert(text::texts(out@) =~= base + windows(all, size as nat, step as nat, 0));
        }
    }
}

/// Pushes the chunks of the block `cs[from..to]` onto `out`.
fn push_block(
    out: &mut Vec<String>,
    cs: &Vec<char>,
    from: usize,
    to: usize,
    chunk_size: usize,
    chunk_overlap: usize,
)
    requires
        from <= to <= cs@.len(),
    ensures
        text::texts(final(out)@) == text::texts(old(out)@) + block_chunks(
            cs@.subrange(from as int, to as int),
            chunk_size as nat,
            chunk_overlap as nat,
        ),
{
    let ws = split_words(cs, from, to);
    let ghost before = text::texts(out@);
    assert(text::texts(ws@).len() == ws@.len());
    if ws.len() == 0 {
        assert(text::texts(out@) =~= before + Seq::<Seq<char>>::empty());
    } else if ws.len() <= chunk_size {
        let piece = join_words(&ws, 0, ws.len());
        assert(text::texts(ws@).subrange(0, ws@.len() as int) =~= text::texts(ws@));
        out.push(piece);
        assert(text::texts(out@) =~= before + seq![piece@]);
    } else {
        let step = if chunk_size > chunk_overlap {
            chunk_size - chunk_overlap
        } else {
            1
        };
        push_windows(out, &ws, chunk_size, step);
    }
}

/// Splits `text` into chunks of at most `chunk_size` words. Blocks between
/// blank lines never share a chunk. In a block with more words than that,
/// each chunk repeats the last `chunk_overlap` words of the one before.
pub fn chunk_text(text: &str, chunk_size: usize, chunk_overlap: usize) -> (r: Vec<String>)
    ensures
        text::texts(r@) == chunks_of(blocks(text@), chunk_size as nat, chunk_overlap as nat),
{
    let cs = chars_of(text);
    let n = cs.len();
    let mut out: Vec<String> = Vec::new();
    let mut from: usize = 0;
    let mut at: usize = 0;
    let ghost all = blocks(text@);
    let ghost mut done: Seq<Seq<char>> = Seq::empty();
    assert(cs@.subrange(0, n as int) =~= text@);
    assert(done + blocks_from(text@, 0) =~= all);
    assert(text::texts(out@) =~= chunks_of(done, chunk_size as nat, chunk_overlap as nat));
    while n - at > 1
        invariant
            n == cs@.len(),
            from <= at <= n,
            text::texts(out@) == chunks_of(done, chunk_size as nat, chunk_overlap as nat),
            done + blocks_from(cs@.subrange(from as int, n as int), (at - from) as nat) == all,
        decreases n - at,
    {
        let ghost s = cs@.subrange(from as int, n as int);
        let ghost seen = (at - from) as nat;
        assert(s[seen as int] == cs@[at as int] && s[seen as int + 1] == cs@[at + 1]);
        if cs[at] == '\n' && cs[at + 1] == '\n' {
            push_block(&mut out, &cs, from, at, chunk_size, chunk_overlap);
            proof {
                let head = s.take(seen as int);
                assert(head =~= cs@.subrange(from as int, at as int));
                assert(s.skip(seen as int + 2) =~= cs@.subrange(at + 2, n as int));
                assert(done.push(head).drop_last() =~= done);
                assert(done.push(head) + blocks_from(cs@.subrange(at + 2, n as int), 0) =~= done
                    + blocks_from(s, seen));
                done = done.push(head);
            }
            at = at + 2;
            from = at;
        } else {
            at = at + 1;
        }
    }
    push_block(&mut out, &cs, from, n, chunk_size, chunk_overlap);
    proof {
        let s = cs@.subrange(from as int, n as int);
        assert(blocks_from(s, (at - from) as nat) =~= seq![s]);
        assert(done + seq![s] =~= done.push(s));
        assert(done.push(s).drop_last() =~= done);
    }
    out
}

} // verus!
