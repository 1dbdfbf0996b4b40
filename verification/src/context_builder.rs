//! Deterministic text chunking with overlap and boundary snapping, and the
//! assembly of entity context strings.
//!
//! Chunking walks the text in code points, never bytes, so a chunk boundary
//! can never split a multi-byte character.  Each chunk ends at the nearest
//! sentence or word boundary within a fixed lookback window of its candidate
//! end; a boundary is only taken when it still advances the next chunk, which
//! makes termination a proved property instead of a hope.

use vstd::prelude::*;
use crate::config::ChunkingConfig;
use crate::entity::RagEntity;
use crate::error::ContragError;
use crate::types::{EntityRelationship, TextChunk};

verus! {

/// One context line per map entry, each preceded by a newline: the entry's
/// value, with its field name when `with_names` is set.
pub open spec fn spec_context_lines(map: Seq<(String, String)>, with_names: bool) -> Seq<char>
    decreases map.len(),
{
    if map.len() == 0 {
        Seq::empty()
    } else {
        "\n"@ + (if with_names {
            map[0].0@ + ": "@ + map[0].1@
        } else {
            map[0].1@
        }) + spec_context_lines(map.drop_first(), with_names)
    }
}

/// The full context text of one entity: a header naming the entity type and
/// id, a separator, then one line per context-map entry.
pub open spec fn spec_entity_context(
    etype: Seq<char>,
    eid: Seq<char>,
    map: Seq<(String, String)>,
    with_names: bool,
) -> Seq<char> {
    "Entity: "@ + etype + "\nID: "@ + eid + "\n---"@ + spec_context_lines(map, with_names)
}

/// The annotation of the `i`-th related context: labelled with its
/// relationship's field name when one is configured.
pub open spec fn spec_graph_part(
    rels: Seq<EntityRelationship>,
    related: Seq<String>,
    i: int,
) -> Seq<char> {
    if i < rels.len() {
        "\n=== Relationship: "@ + rels[i].field_name@ + " ===\n"@ + related[i]@ + "\n"@
    } else {
        "\n"@ + related[i]@ + "\n"@
    }
}

/// The annotated related contexts from `i` on, each preceded by the joining
/// newline.
pub open spec fn spec_graph_parts(
    rels: Seq<EntityRelationship>,
    related: Seq<String>,
    i: int,
) -> Seq<char>
    decreases related.len() - i,
{
    if i < 0 || i >= related.len() {
        Seq::empty()
    } else {
        "\n"@ + spec_graph_part(rels, related, i) + spec_graph_parts(rels, related, i + 1)
    }
}

/// The full graph context: the root entity's context followed by every
/// related context, annotated with its relationship where known.
pub open spec fn spec_graph_context(
    root: Seq<char>,
    rels: Seq<EntityRelationship>,
    related: Seq<String>,
) -> Seq<char> {
    root + spec_graph_parts(rels, related, 0)
}

/// The tail of a joined context list from part `i` on: a separator then the
/// part, repeated.
pub open spec fn spec_join_rest(parts: Seq<String>, sep: Seq<char>, i: int) -> Seq<char>
    decreases parts.len() - i,
{
    if i < 0 || i >= parts.len() {
        Seq::empty()
    } else {
        sep + parts[i]@ + spec_join_rest(parts, sep, i + 1)
    }
}

/// `parts` joined by `sep`.
pub open spec fn spec_join_contexts(parts: Seq<String>, sep: Seq<char>) -> Seq<char> {
    if parts.len() == 0 {
        Seq::empty()
    } else {
        parts[0]@ + spec_join_rest(parts, sep, 1)
    }
}

/// Sum of the span lengths of a chunk list.
pub open spec fn spans_len_sum(spans: Seq<(int, int)>) -> int
    decreases spans.len(),
{
    if spans.len() == 0 {
        0
    } else {
        (spans[0].1 - spans[0].0) + spans_len_sum(spans.drop_first())
    }
}

/// How far back (in code points) a chunk end may snap to a boundary.
pub const LOOKBACK: usize = 50;

/// Characters a chunk prefers to end just after: whitespace and sentence
/// punctuation.
pub open spec fn is_boundary_char(c: char) -> bool {
    c == ' ' || c == '\t' || c == '\n' || c == '\r' || c == '.' || c == '!' || c == '?'
}

/// Largest index in `[lo, hi)` holding a boundary character, or -1.
pub open spec fn last_boundary(text: Seq<char>, lo: int, hi: int) -> int
    decreases hi - lo,
{
    if hi <= lo {
        -1
    } else if is_boundary_char(text[hi - 1]) {
        hi - 1
    } else {
        last_boundary(text, lo, hi - 1)
    }
}

pub proof fn lemma_last_boundary(text: Seq<char>, lo: int, hi: int)
    requires
        0 <= lo,
        hi <= text.len(),
    ensures
        last_boundary(text, lo, hi) == -1 || lo <= last_boundary(text, lo, hi) < hi,
        last_boundary(text, lo, hi) >= 0 ==> is_boundary_char(text[last_boundary(text, lo, hi)])
            && forall|j: int| last_boundary(text, lo, hi) < j < hi
                ==> !is_boundary_char(#[trigger] text[j]),
        last_boundary(text, lo, hi) == -1 ==> forall|j: int| lo <= j < hi
            ==> !is_boundary_char(#[trigger] text[j]),
    decreases hi - lo,
{
    if hi > lo && !is_boundary_char(text[hi - 1]) {
        lemma_last_boundary(text, lo, hi - 1);
    }
}

/// Where the chunk that begins at `start` ends.  The candidate end is
/// `start + chunk_size` (clamped to the text); if that is not the end of the
/// text, the end snaps back to just after the nearest boundary character, as
/// long as that boundary is within the lookback window and still leaves the
/// next chunk start beyond the current one.
pub open spec fn chunk_end(text: Seq<char>, cs: int, ov: int, start: int) -> int {
    let cand = if start + cs < text.len() {
        start + cs
    } else {
        text.len() as int
    };
    if cand == text.len() {
        cand
    } else {
        let lo = if cand - LOOKBACK > start + ov {
            cand - LOOKBACK
        } else {
            start + ov
        };
        let b = last_boundary(text, lo, cand);
        if b >= 0 {
            b + 1
        } else {
            cand
        }
    }
}

pub proof fn lemma_chunk_end(text: Seq<char>, cs: int, ov: int, start: int)
    requires
        0 < ov < cs,
        0 <= start < text.len(),
    ensures
        chunk_end(text, cs, ov, start) <= text.len(),
        start < chunk_end(text, cs, ov, start),
        start + cs < text.len() ==> chunk_end(text, cs, ov, start) > start + ov
            && chunk_end(text, cs, ov, start) >= start + cs - (LOOKBACK - 1)
            && chunk_end(text, cs, ov, start) <= start + cs,
        start + cs >= text.len() ==> chunk_end(text, cs, ov, start) == text.len(),
{
    let cand = if start + cs < text.len() {
        start + cs
    } else {
        text.len() as int
    };
    if cand < text.len() {
        let lo = if cand - LOOKBACK > start + ov {
            cand - LOOKBACK
        } else {
            start + ov
        };
        lemma_last_boundary(text, lo, cand);
    }
}

/// The chunk spans `(start, end)` emitted from `start` on: one final chunk
/// when the candidate end reaches the text end, else a chunk and the rest
/// from `end - overlap`.
pub open spec fn spec_chunks_from(text: Seq<char>, cs: int, ov: int, start: int) -> Seq<(int, int)>
    decreases text.len() - start,
    when 0 < ov < cs && 0 <= start < text.len()
    via spec_chunks_from_decreases
{
    let e = chunk_end(text, cs, ov, start);
    if e >= text.len() {
        seq![(start, text.len() as int)]
    } else {
        seq![(start, e)] + spec_chunks_from(text, cs, ov, e - ov)
    }
}

#[via_fn]
proof fn spec_chunks_from_decreases(text: Seq<char>, cs: int, ov: int, start: int) {
    lemma_chunk_end(text, cs, ov, start);
}

/// All chunk spans of a text: a single whole-text chunk when the text fits in
/// one chunk, else the overlapping spans starting at 0.
pub open spec fn spec_chunks(text: Seq<char>, cs: int, ov: int) -> Seq<(int, int)> {
    if text.len() <= cs {
        seq![(0, text.len() as int)]
    } else {
        spec_chunks_from(text, cs, ov, 0)
    }
}

proof fn lemma_chunks_from_chain(text: Seq<char>, cs: int, ov: int, start: int)
    requires
        0 < ov < cs,
        0 <= start < text.len(),
    ensures
        ({
            let s = spec_chunks_from(text, cs, ov, start);
            &&& s.len() >= 1
            &&& s.len() <= text.len() - start
            &&& s[0].0 == start
            &&& s[s.len() - 1].1 == text.len()
            &&& forall|i: int| 0 <= i < s.len()
                ==> start <= (#[trigger] s[i]).0 < s[i].1 <= text.len()
            &&& forall|i: int| 1 <= i < s.len()
                ==> (#[trigger] s[i]).0 == s[i - 1].1 - ov
            &&& start + ov < text.len() ==> forall|i: int| 0 <= i < s.len()
                ==> (#[trigger] s[i]).1 - s[i].0 > ov
        }),
    decreases text.len() - start,
{
    lemma_chunk_end(text, cs, ov, start);
    let e = chunk_end(text, cs, ov, start);
    let s = spec_chunks_from(text, cs, ov, start);
    if e < text.len() {
        lemma_chunks_from_chain(text, cs, ov, e - ov);
        let rest = spec_chunks_from(text, cs, ov, e - ov);
        assert(s == seq![(start, e)] + rest);
        assert forall|i: int| 1 <= i < s.len() implies #[trigger] s[i] == rest[i - 1] by {}
        assert(s[s.len() - 1].1 == text.len());
        assert forall|i: int| 0 <= i < s.len() implies start <= (#[trigger] s[i]).0 < s[i].1
            <= text.len() by {
            if i >= 1 {
                assert(s[i] == rest[i - 1]);
            }
        }
        assert forall|i: int| 1 <= i < s.len() implies (#[trigger] s[i]).0
            == s[i - 1].1 - ov by {
            if i == 1 {
                assert(s[1] == rest[0]);
                assert(rest[0].0 == e - ov);
            } else {
                assert(s[i] == rest[i - 1]);
                assert(s[i - 1] == rest[i - 2]);
            }
        }
        if start + ov < text.len() {
            assert forall|i: int| 0 <= i < s.len() implies (#[trigger] s[i]).1 - s[i].0
                > ov by {
                if i >= 1 {
                    assert(s[i] == rest[i - 1]);
                }
            }
        }
    }
}

/// The chunk spans cover the whole text in order: the first starts at 0, the
/// last ends at the text end, each span is non-empty and in bounds, and each
/// later span starts exactly `overlap` points before its predecessor's end.
/// There are never more spans than code points, and when the chunk size
/// exceeds `overlap + LOOKBACK`, consecutive starts advance by at least
/// `chunk_size - overlap - LOOKBACK + 1`.
pub proof fn lemma_chunks_cover(text: Seq<char>, cs: int, ov: int)
    requires
        0 < ov < cs,
    ensures
        ({
            let s = spec_chunks(text, cs, ov);
            &&& s.len() >= 1
            &&& s.len() <= (if text.len() == 0 { 1int } else { text.len() as int })
            &&& s[0].0 == 0
            &&& s[s.len() - 1].1 == text.len()
            &&& forall|i: int| 0 <= i < s.len()
                ==> 0 <= (#[trigger] s[i]).0 <= s[i].1 <= text.len()
            &&& text.len() > 0 ==> forall|i: int| 0 <= i < s.len()
                ==> (#[trigger] s[i]).0 < s[i].1
            &&& forall|i: int| 1 <= i < s.len()
                ==> (#[trigger] s[i]).0 == s[i - 1].1 - ov
            &&& forall|i: int| 1 <= i < s.len()
                ==> (#[trigger] s[i]).0 >= s[i - 1].0 + cs - ov - (LOOKBACK - 1)
        }),
{
    if text.len() > cs {
        lemma_chunks_from_chain(text, cs, ov, 0);
        let s = spec_chunks(text, cs, ov);
        assert forall|i: int| 1 <= i < s.len() implies (#[trigger] s[i]).0
            >= s[i - 1].0 + cs - ov - (LOOKBACK - 1) by {
            lemma_chunks_from_step(text, cs, ov, 0, i - 1);
        }
    }
}

/// Every span of the chunk list is a `chunk_end` step, so its end sits at
/// most `LOOKBACK - 1` points before its candidate end.
proof fn lemma_chunks_from_step(text: Seq<char>, cs: int, ov: int, start: int, i: int)
    requires
        0 < ov < cs,
        0 <= start < text.len(),
        0 <= i < spec_chunks_from(text, cs, ov, start).len() - 1,
    ensures
        ({
            let s = spec_chunks_from(text, cs, ov, start);
            s[i].1 >= s[i].0 + cs - (LOOKBACK - 1) && s[i + 1].0 == s[i].1 - ov
        }),
    decreases text.len() - start,
{
    lemma_chunk_end(text, cs, ov, start);
    let e = chunk_end(text, cs, ov, start);
    let s = spec_chunks_from(text, cs, ov, start);
    lemma_chunks_from_chain(text, cs, ov, start);
    if e < text.len() {
        let rest = spec_chunks_from(text, cs, ov, e - ov);
        assert forall|j: int| 1 <= j < s.len() implies #[trigger] s[j] == rest[j - 1] by {}
        if i == 0 {
            lemma_chunks_from_chain(text, cs, ov, e - ov);
        } else {
            lemma_chunks_from_step(text, cs, ov, e - ov, i - 1);
        }
    }
}

/// The text a span list reproduces when the first span is taken whole and
/// each later span drops the `overlap` points it shares with its predecessor.
pub open spec fn chunks_concat(text: Seq<char>, spans: Seq<(int, int)>, ov: int) -> Seq<char> {
    if spans.len() == 0 {
        Seq::empty()
    } else {
        text.subrange(spans[0].0, spans[0].1) + chunks_rest_concat(text, spans.drop_first(), ov)
    }
}

/// The later spans' contribution: each minus its leading overlap.
pub open spec fn chunks_rest_concat(text: Seq<char>, spans: Seq<(int, int)>, ov: int) -> Seq<char>
    decreases spans.len(),
{
    if spans.len() == 0 {
        Seq::empty()
    } else {
        text.subrange(spans[0].0 + ov, spans[0].1) + chunks_rest_concat(
            text,
            spans.drop_first(),
            ov,
        )
    }
}

proof fn lemma_chunks_from_rest_concat(text: Seq<char>, cs: int, ov: int, start: int)
    requires
        0 < ov < cs,
        0 <= start,
        start + ov < text.len(),
    ensures
        chunks_rest_concat(text, spec_chunks_from(text, cs, ov, start), ov) == text.subrange(
            start + ov,
            text.len() as int,
        ),
    decreases text.len() - start,
{
    lemma_chunk_end(text, cs, ov, start);
    let e = chunk_end(text, cs, ov, start);
    let s = spec_chunks_from(text, cs, ov, start);
    if e >= text.len() {
        assert(s == seq![(start, text.len() as int)]);
        assert(s.drop_first() =~= Seq::<(int, int)>::empty());
        assert(s[0].0 == start && s[0].1 == text.len());
        assert(chunks_rest_concat(text, s.drop_first(), ov) == Seq::<char>::empty());
        assert(chunks_rest_concat(text, s, ov) =~= text.subrange(
            start + ov,
            text.len() as int,
        ));
    } else {
        let rest = spec_chunks_from(text, cs, ov, e - ov);
        assert(s == seq![(start, e)] + rest);
        assert(s.drop_first() =~= rest);
        lemma_chunks_from_rest_concat(text, cs, ov, e - ov);
        assert(chunks_rest_concat(text, s, ov) == text.subrange(start + ov, e)
            + text.subrange(e, text.len() as int));
        assert(text.subrange(start + ov, e) + text.subrange(e, text.len() as int)
            =~= text.subrange(start + ov, text.len() as int));
    }
}

/// Concatenating the chunks with their overlaps dropped reconstructs the
/// source text exactly: nothing is lost and nothing is invented.
pub proof fn lemma_chunks_reassemble(text: Seq<char>, cs: int, ov: int)
    requires
        0 < ov < cs,
    ensures
        chunks_concat(text, spec_chunks(text, cs, ov), ov) == text,
{
    let s = spec_chunks(text, cs, ov);
    if text.len() <= cs {
        assert(s == seq![(0int, text.len() as int)]);
        assert(s.drop_first() =~= Seq::<(int, int)>::empty());
        assert(chunks_concat(text, s, ov) =~= text);
    } else {
        lemma_chunk_end(text, cs, ov, 0);
        let e = chunk_end(text, cs, ov, 0);
        assert(e < text.len());
        let rest = spec_chunks_from(text, cs, ov, e - ov);
        assert(s == seq![(0, e)] + rest);
        assert(s.drop_first() =~= rest);
        lemma_chunks_from_rest_concat(text, cs, ov, e - ov);
        assert(chunks_concat(text, s, ov) == text.subrange(0, e) + text.subrange(
            e,
            text.len() as int,
        ));
        assert(text.subrange(0, e) + text.subrange(e, text.len() as int) =~= text);
    }
}

/// What `chunk_text` promises about its output: spans follow the spec, every
/// chunk's text is exactly the spanned slice of the source, and chunks are
/// numbered consecutively from 0.
pub open spec fn chunks_match(text: Seq<char>, cs: int, ov: int, chunks: Seq<TextChunk>) -> bool {
    let spans = spec_chunks(text, cs, ov);
    &&& chunks.len() == spans.len()
    &&& forall|i: int| 0 <= i < spans.len() ==> {
        &&& (#[trigger] chunks[i]).start_idx == spans[i].0
        &&& chunks[i].end_idx == spans[i].1
        &&& chunks[i].chunk_index == i
        &&& chunks[i].text@ == text.subrange(spans[i].0, spans[i].1)
    }
}

/// Concatenation of a chunk list's texts, the first taken whole and each
/// later one without its leading `overlap` points.
pub open spec fn chunk_texts_joined(chunks: Seq<TextChunk>, ov: int) -> Seq<char> {
    if chunks.len() == 0 {
        Seq::empty()
    } else {
        chunks[0].text@ + chunk_texts_rest(chunks.drop_first(), ov)
    }
}

/// The later chunks' contribution: each text minus its leading overlap.
pub open spec fn chunk_texts_rest(chunks: Seq<TextChunk>, ov: int) -> Seq<char>
    decreases chunks.len(),
{
    if chunks.len() == 0 {
        Seq::empty()
    } else {
        chunks[0].text@.skip(ov) + chunk_texts_rest(chunks.drop_first(), ov)
    }
}

proof fn lemma_texts_rest_eq(
    text: Seq<char>,
    spans: Seq<(int, int)>,
    chunks: Seq<TextChunk>,
    ov: int,
)
    requires
        ov >= 0,
        chunks.len() == spans.len(),
        forall|i: int| 0 <= i < spans.len()
            ==> 0 <= (#[trigger] spans[i]).0 && spans[i].0 + ov <= spans[i].1 <= text.len(),
        forall|i: int| 0 <= i < chunks.len() ==> (#[trigger] chunks[i]).text@ == text.subrange(
            spans[i].0,
            spans[i].1,
        ),
    ensures
        chunk_texts_rest(chunks, ov) == chunks_rest_concat(text, spans, ov),
    decreases chunks.len(),
{
    if chunks.len() > 0 {
        assert(chunks[0].text@.skip(ov) =~= text.subrange(spans[0].0 + ov, spans[0].1));
        assert forall|i: int| 0 <= i < spans.len() - 1 implies #[trigger] spans.drop_first()[i]
            == spans[i + 1] by {}
        assert forall|i: int| 0 <= i < chunks.len() - 1 implies #[trigger] chunks.drop_first()[i]
            == chunks[i + 1] by {}
        lemma_texts_rest_eq(text, spans.drop_first(), chunks.drop_first(), ov);
    }
}

/// Joining the produced chunks' texts, overlap removed, reconstructs the
/// source text exactly: chunking loses nothing and invents nothing.
pub proof fn lemma_chunk_texts_reassemble(
    text: Seq<char>,
    cs: int,
    ov: int,
    chunks: Seq<TextChunk>,
)
    requires
        0 < ov < cs,
        chunks_match(text, cs, ov, chunks),
    ensures
        chunk_texts_joined(chunks, ov) == text,
{
    let spans = spec_chunks(text, cs, ov);
    lemma_chunks_cover(text, cs, ov);
    lemma_chunks_reassemble(text, cs, ov);
    if text.len() <= cs {
        assert(spans == seq![(0int, text.len() as int)]);
        assert(chunks.len() == 1);
        assert(chunks[0].text@ =~= text);
        assert(chunks.drop_first() =~= Seq::<TextChunk>::empty());
        assert(chunk_texts_joined(chunks, ov) =~= text);
    } else {
        lemma_chunks_from_chain(text, cs, ov, 0);
        assert forall|i: int| 0 <= i < spans.len() - 1 implies 0 <= (#[trigger] spans
            .drop_first()[i]).0 && spans.drop_first()[i].0 + ov <= spans.drop_first()[i].1
            <= text.len() by {
            assert(spans.drop_first()[i] == spans[i + 1]);
            assert(spans[i + 1].1 - spans[i + 1].0 > ov);
        }
        assert forall|i: int| 0 <= i < chunks.len() - 1 implies (#[trigger] chunks
            .drop_first()[i]).text@ == text.subrange(
            spans.drop_first()[i].0,
            spans.drop_first()[i].1,
        ) by {
            assert(chunks.drop_first()[i] == chunks[i + 1]);
            assert(spans.drop_first()[i] == spans[i + 1]);
        }
        lemma_texts_rest_eq(text, spans.drop_first(), chunks.drop_first(), ov);
        assert(chunks[0].text@ == text.subrange(spans[0].0, spans[0].1));
        assert(chunk_texts_joined(chunks, ov) == chunks_concat(text, spans, ov));
    }
}

/// Chunking is deterministic: any two chunk lists produced from the same
/// text and configuration agree span for span, character for character.
pub proof fn lemma_chunking_deterministic(
    text: Seq<char>,
    cs: int,
    ov: int,
    c1: Seq<TextChunk>,
    c2: Seq<TextChunk>,
)
    requires
        chunks_match(text, cs, ov, c1),
        chunks_match(text, cs, ov, c2),
    ensures
        c1.len() == c2.len(),
        forall|i: int| 0 <= i < c1.len() ==> (#[trigger] c1[i]).start_idx == c2[i].start_idx
            && c1[i].end_idx == c2[i].end_idx && c1[i].chunk_index == c2[i].chunk_index
            && c1[i].text@ == c2[i].text@,
{
}

/// Copies the code points of `text` into a vector.
fn chars_of(text: &str) -> (r: Vec<char>)
    ensures
        r@ == text@,
{
    let n = text.unicode_len();
    let mut r: Vec<char> = Vec::new();
    let mut i: usize = 0;
    while i < n
        invariant
            0 <= i <= n,
            n == text@.len(),
            r@.len() == i,
            forall|j: int| 0 <= j < i ==> #[trigger] r@[j] == text@[j],
        decreases n - i,
    {
        r.push(text.get_char(i));
        i = i + 1;
    }
    proof {
        assert(r@ =~= text@);
    }
    r
}

/// Is `c` a boundary character, executably.
fn is_boundary(c: char) -> (r: bool)
    ensures
        r == is_boundary_char(c),
{
    c == ' ' || c == '\t' || c == '\n' || c == '\r' || c == '.' || c == '!' || c == '?'
}

/// Renders one entity's context text from its type, id and context map.
pub fn format_entity_context(
    entity_type: &str,
    entity_id: &str,
    context_map: &Vec<(String, String)>,
    include_field_names: bool,
) -> (r: String)
    ensures
        r@ == spec_entity_context(entity_type@, entity_id@, context_map@, include_field_names),
{
    proof {
        reveal_strlit("Entity: ");
        reveal_strlit("\nID: ");
        reveal_strlit("\n---");
        reveal_strlit("\n");
        reveal_strlit(": ");
    }
    let mut out: String = String::from_str("Entity: ");
    out.append(entity_type);
    out.append("\nID: ");
    out.append(entity_id);
    out.append("\n---");
    let ghost header = out@;
    proof {
        assert(context_map@.skip(0) =~= context_map@);
        assert(spec_entity_context(entity_type@, entity_id@, context_map@, include_field_names)
            =~= out@ + spec_context_lines(context_map@, include_field_names));
    }
    let n = context_map.len();
    let mut i: usize = 0;
    while i < n
        invariant
            0 <= i <= n,
            n == context_map@.len(),
            spec_entity_context(entity_type@, entity_id@, context_map@, include_field_names)
                =~= out@ + spec_context_lines(context_map@.skip(i as int), include_field_names),
        decreases n - i,
    {
        proof {
            reveal_strlit("\n");
            reveal_strlit(": ");
            assert(context_map@.skip(i as int)[0] == context_map@[i as int]);
            assert(context_map@.skip(i as int).drop_first() =~= context_map@.skip(i as int + 1));
        }
        out.append("\n");
        if include_field_names {
            out.append(context_map[i].0.as_str());
            out.append(": ");
        }
        out.append(context_map[i].1.as_str());
        i = i + 1;
    }
    proof {
        assert(spec_context_lines(context_map@.skip(n as int), include_field_names)
            =~= Seq::<char>::empty());
    }
    out
}

/// Renders a graph context: the root context followed by each related
/// context, annotated with its relationship's field name where one exists.
pub fn format_graph_context(
    root_context: String,
    relationships: &Vec<EntityRelationship>,
    related_contexts: &Vec<String>,
) -> (r: String)
    ensures
        r@ == spec_graph_context(root_context@, relationships@, related_contexts@),
{
    proof {
        reveal_strlit("\n");
        reveal_strlit("\n=== Relationship: ");
        reveal_strlit(" ===\n");
    }
    let mut out = root_context;
    proof {
        assert(spec_graph_context(root_context@, relationships@, related_contexts@)
            =~= out@ + spec_graph_parts(relationships@, related_contexts@, 0));
    }
    let n = related_contexts.len();
    let mut i: usize = 0;
    while i < n
        invariant
            0 <= i <= n,
            n == related_contexts@.len(),
            spec_graph_context(root_context@, relationships@, related_contexts@) =~= out@
                + spec_graph_parts(relationships@, related_contexts@, i as int),
        decreases n - i,
    {
        proof {
            reveal_strlit("\n");
            reveal_strlit("\n=== Relationship: ");
            reveal_strlit(" ===\n");
        }
        out.append("\n");
        if i < relationships.len() {
            out.append("\n=== Relationship: ");
            out.append(relationships[i].field_name.as_str());
            out.append(" ===\n");
            out.append(related_contexts[i].as_str());
            out.append("\n");
        } else {
            out.append("\n");
            out.append(related_contexts[i].as_str());
            out.append("\n");
        }
        i = i + 1;
    }
    out
}

/// Joins context strings with a separator.
pub fn join_contexts(parts: &Vec<String>, sep: &str) -> (r: String)
    ensures
        r@ == spec_join_contexts(parts@, sep@),
{
    let n = parts.len();
    let mut out = String::new();
    let mut i: usize = 0;
    while i < n
        invariant
            0 <= i <= n,
            n == parts@.len(),
            i == 0 ==> out@ == Seq::<char>::empty(),
            i > 0 ==> spec_join_contexts(parts@, sep@) =~= out@ + spec_join_rest(
                parts@,
                sep@,
                i as int,
            ),
        decreases n - i,
    {
        if i > 0 {
            out.append(sep);
        }
        out.append(parts[i].as_str());
        i = i + 1;
    }
    out
}

/// Statistics of one chunking run.
#[derive(Clone, Debug)]
pub struct ChunkStats {
    /// Length of the source text, in code points.
    pub total_text_length: usize,
    pub total_chunks: usize,
    /// Mean chunk length in code points, rounded down.
    pub avg_chunk_size: usize,
    pub chunk_size_config: usize,
    pub overlap_config: usize,
}

proof fn lemma_spans_sum_bound(spans: Seq<(int, int)>, n: int)
    requires
        n >= 0,
        forall|i: int| 0 <= i < spans.len() ==> 0 <= (#[trigger] spans[i]).0 <= spans[i].1 <= n,
    ensures
        0 <= spans_len_sum(spans) <= spans.len() * n,
    decreases spans.len(),
{
    if spans.len() > 0 {
        assert forall|i: int| 0 <= i < spans.drop_first().len() implies 0 <= (#[trigger] spans
            .drop_first()[i]).0 <= spans.drop_first()[i].1 <= n by {
            assert(spans.drop_first()[i] == spans[i + 1]);
        }
        lemma_spans_sum_bound(spans.drop_first(), n);
        assert((spans.len() - 1) * n + n == spans.len() * n) by (nonlinear_arith);
    }
}

/// Builds entity context text and splits long text into overlapping chunks.
pub struct ContextBuilder {
    config: ChunkingConfig,
}

impl ContextBuilder {
    /// Chunk size this builder was configured with.
    pub closed spec fn spec_chunk_size(&self) -> int {
        self.config.chunk_size as int
    }

    /// Overlap this builder was configured with.
    pub closed spec fn spec_overlap(&self) -> int {
        self.config.overlap as int
    }

    /// Whether context lines carry field names.
    pub closed spec fn spec_include_field_names(&self) -> bool {
        self.config.include_field_names
    }

    /// Creates a builder over the given chunking configuration.
    pub fn new(config: ChunkingConfig) -> (r: Self)
        ensures
            r.spec_chunk_size() == config.chunk_size,
            r.spec_overlap() == config.overlap,
            r.spec_include_field_names() == config.include_field_names,
    {
        ContextBuilder { config }
    }

    /// Finds the snapped end for a chunk whose candidate end is `hi`: just
    /// after the last boundary character in `[lo, hi)`, or `hi` itself when
    /// that window holds none.
    fn find_word_boundary(chars: &Vec<char>, lo: usize, hi: usize) -> (r: usize)
        requires
            lo <= hi <= chars@.len(),
        ensures
            r == ({
                let b = last_boundary(chars@, lo as int, hi as int);
                if b >= 0 {
                    b + 1
                } else {
                    hi as int
                }
            }),
    {
        proof {
            lemma_last_boundary(chars@, lo as int, hi as int);
        }
        let mut i: usize = hi;
        while i > lo
            invariant
                lo <= i <= hi <= chars@.len(),
                forall|j: int| i <= j < hi ==> !is_boundary_char(#[trigger] chars@[j]),
            decreases i,
        {
            if is_boundary(chars[i - 1]) {
                proof {
                    lemma_last_boundary(chars@, lo as int, hi as int);
                    let b = last_boundary(chars@, lo as int, hi as int);
                    if b < i - 1 || b > i - 1 {
                        assert(is_boundary_char(chars@[i - 1]));
                    }
                }
                return i;
            }
            i = i - 1;
        }
        hi
    }

    /// Splits `text` into overlapping chunks of at most `chunk_size` code
    /// points each, snapping ends to word boundaries.  A text that fits in
    /// one chunk is returned whole.  A configuration without
    /// `0 < overlap < chunk_size` is rejected, as chunking could otherwise
    /// fail to advance.
    pub fn chunk_text(&self, text: &str) -> (r: Result<Vec<TextChunk>, ContragError>)
        ensures
            !(0 < self.spec_overlap() < self.spec_chunk_size()) ==> (r matches Err(e)
                && (e matches ContragError::InvalidConfig(msg)
                    && msg@ == "Chunk overlap must be positive and less than chunk size"@)),
            0 < self.spec_overlap() < self.spec_chunk_size() ==> (r matches Ok(chunks)
                && chunks_match(text@, self.spec_chunk_size(), self.spec_overlap(), chunks@)),
    {
        let cs = self.config.chunk_size;
        let ov = self.config.overlap;
        if !(0 < ov && ov < cs) {
            return Err(ContragError::InvalidConfig(String::from_str(
                "Chunk overlap must be positive and less than chunk size",
            )));
        }
        let chars = chars_of(text);
        let n = chars.len();
        let ghost t = text@;
        if n <= cs {
            let whole: String = text.to_owned();
            let mut chunks: Vec<TextChunk> = Vec::new();
            chunks.push(TextChunk { text: whole, start_idx: 0, end_idx: n, chunk_index: 0 });
            proof {
                assert(t.subrange(0, t.len() as int) =~= t);
            }
            return Ok(chunks);
        }

        let mut chunks: Vec<TextChunk> = Vec::new();
        let mut start: usize = 0;
        let mut idx: usize = 0;
        let ghost spans = spec_chunks(t, cs as int, ov as int);
        loop
            invariant_except_break
                0 < ov < cs,
                0 <= start < n,
                n == t.len(),
                text@ == t,
                chars@ == t,
                n > cs,
                idx == chunks@.len(),
                idx <= start,
                spans == spec_chunks(t, cs as int, ov as int),
                spans =~= chunks@.map_values(
                    |c: TextChunk| (c.start_idx as int, c.end_idx as int),
                ) + spec_chunks_from(t, cs as int, ov as int, start as int),
                forall|i: int| 0 <= i < chunks@.len() ==> {
                    &&& (#[trigger] chunks@[i]).start_idx == spans[i].0
                    &&& chunks@[i].end_idx == spans[i].1
                    &&& chunks@[i].chunk_index == i
                    &&& chunks@[i].text@ == t.subrange(spans[i].0, spans[i].1)
                },
            ensures
                chunks_match(t, cs as int, ov as int, chunks@),
            decreases n - start,
        {
            proof {
                lemma_chunk_end(t, cs as int, ov as int, start as int);
            }
            let cand: usize = if cs >= n - start {
                n
            } else {
                start + cs
            };
            let end: usize = if cand == n {
                n
            } else {
                let lo: usize = if cand >= LOOKBACK && cand - LOOKBACK > start + ov {
                    cand - LOOKBACK
                } else {
                    start + ov
                };
                Self::find_word_boundary(&chars, lo, cand)
            };
            proof {
                assert(end as int == chunk_end(t, cs as int, ov as int, start as int));
            }
            let piece: String = text.substring_char(start, end).to_owned();
            chunks.push(TextChunk {
                text: piece,
                start_idx: start,
                end_idx: end,
                chunk_index: idx,
            });
            if end >= n {
                proof {
                    assert(spec_chunks_from(t, cs as int, ov as int, start as int)
                        =~= seq![(start as int, t.len() as int)]);
                    assert(spans =~= chunks@.map_values(
                        |c: TextChunk| (c.start_idx as int, c.end_idx as int),
                    ));
                }
                break;
            }
            proof {
                lemma_chunk_end(t, cs as int, ov as int, start as int);
                assert(start + cs < n);
                assert(end > start + ov);
                assert(spec_chunks_from(t, cs as int, ov as int, start as int)
                    =~= seq![(start as int, end as int)] + spec_chunks_from(
                    t,
                    cs as int,
                    ov as int,
                    end - ov,
                ));
            }
            start = end - ov;
            idx = idx + 1;
        }
        Ok(chunks)
    }

    /// Builds the context text of one entity from its own description.  What
    /// the entity reports about itself is the entity's business; the
    /// rendering around it is `format_entity_context`.
    pub fn build_entity_context<T: RagEntity>(&self, entity: &T) -> String {
        let map = entity.to_context_map();
        let id = entity.entity_id();
        format_entity_context(T::entity_type(), id.as_str(), &map, self.config.include_field_names)
    }

    /// Builds the context of an entity together with its related contexts,
    /// annotated by relationship.
    pub fn build_graph_context<T: RagEntity>(
        &self,
        root_entity: &T,
        related_contexts: Vec<String>,
    ) -> String {
        let root = self.build_entity_context(root_entity);
        let rels = root_entity.relationships();
        format_graph_context(root, &rels, &related_contexts)
    }

    /// Builds one entity's context and chunks it.
    pub fn build_and_chunk<T: RagEntity>(&self, entity: &T) -> (r: Result<
        Vec<TextChunk>,
        ContragError,
    >)
        ensures
            r is Ok <==> 0 < self.spec_overlap() < self.spec_chunk_size(),
    {
        let context = self.build_entity_context(entity);
        self.chunk_text(context.as_str())
    }

    /// Builds an entity graph's context and chunks it.
    pub fn build_and_chunk_graph<T: RagEntity>(
        &self,
        root_entity: &T,
        related_contexts: Vec<String>,
    ) -> (r: Result<Vec<TextChunk>, ContragError>)
        ensures
            r is Ok <==> 0 < self.spec_overlap() < self.spec_chunk_size(),
    {
        let context = self.build_graph_context(root_entity, related_contexts);
        self.chunk_text(context.as_str())
    }

    /// Builds and merges the contexts of several entities.
    pub fn build_multi_entity_context<T: RagEntity>(&self, entities: &Vec<T>) -> String {
        let mut parts: Vec<String> = Vec::new();
        let n = entities.len();
        let mut i: usize = 0;
        while i < n
            invariant
                0 <= i <= n,
                n == entities@.len(),
            decreases n - i,
        {
            parts.push(self.build_entity_context(&entities[i]));
            i = i + 1;
        }
        join_contexts(&parts, "\n\n=== Next Entity ===\n\n")
    }

    /// Chunks `text` and reports how the chunks came out.
    pub fn get_chunk_stats(&self, text: &str) -> (r: Result<ChunkStats, ContragError>)
        ensures
            r is Ok <==> 0 < self.spec_overlap() < self.spec_chunk_size(),
            r matches Ok(st) ==> {
                let spans = spec_chunks(text@, self.spec_chunk_size(), self.spec_overlap());
                &&& st.total_text_length == text@.len()
                &&& st.total_chunks == spans.len()
                &&& st.avg_chunk_size == spans_len_sum(spans) / spans.len() as int
                &&& st.chunk_size_config == self.spec_chunk_size()
                &&& st.overlap_config == self.spec_overlap()
            },
    {
        let ghost cs = self.spec_chunk_size();
        let ghost ov = self.spec_overlap();
        let chunks = match self.chunk_text(text) {
            Ok(chunks) => chunks,
            Err(e) => {
                return Err(e);
            },
        };
        let ghost spans = spec_chunks(text@, cs, ov);
        proof {
            lemma_chunks_cover(text@, cs, ov);
        }
        let total_chunks = chunks.len();
        let total_len = text.unicode_len();
        let n = chunks.len();
        let mut sum: u128 = 0;
        let mut i: usize = 0;
        while i < n
            invariant
                0 <= i <= n,
                n == chunks@.len(),
                n == spans.len(),
                total_len == text@.len(),
                spans == spec_chunks(text@, cs, ov),
                forall|j: int| 0 <= j < spans.len()
                    ==> 0 <= (#[trigger] spans[j]).0 <= spans[j].1 <= text@.len(),
                forall|j: int| 0 <= j < n ==> (#[trigger] chunks@[j]).text@ == text@.subrange(
                    spans[j].0,
                    spans[j].1,
                ),
                sum == spans_len_sum(spans.take(i as int)),
                sum <= i * text@.len(),
            decreases n - i,
        {
            proof {
                lemma_spans_take_snoc(spans, i as int);
                assert(i * text@.len() + text@.len() == (i + 1) * text@.len())
                    by (nonlinear_arith);
                assert((i + 1) * text@.len() <= u64::MAX * (u64::MAX as int))
                    by (nonlinear_arith)
                    requires i + 1 <= u64::MAX, text@.len() <= u64::MAX,
                ;
            }
            let len_i = chunks[i].text.as_str().unicode_len();
            sum = sum + len_i as u128;
            i = i + 1;
        }
        proof {
            assert(spans.take(n as int) =~= spans);
            lemma_spans_sum_bound(spans, text@.len() as int);
            assert(spans_len_sum(spans) / spans.len() as int <= text@.len()) by (nonlinear_arith)
                requires
                    spans.len() >= 1,
                    0 <= spans_len_sum(spans) <= spans.len() * text@.len(),
            ;
        }
        let avg: usize = (sum / (total_chunks as u128)) as usize;
        Ok(ChunkStats {
            total_text_length: total_len,
            total_chunks,
            avg_chunk_size: avg,
            chunk_size_config: self.config.chunk_size,
            overlap_config: self.config.overlap,
        })
    }
}

/// Splitting a span prefix one further: its sum grows by the next span.
proof fn lemma_spans_take_snoc(spans: Seq<(int, int)>, i: int)
    requires
        0 <= i < spans.len(),
    ensures
        spans_len_sum(spans.take(i + 1)) == spans_len_sum(spans.take(i)) + (spans[i].1
            - spans[i].0),
    decreases i,
{
    if i == 0 {
        assert(spans.take(1).drop_first() =~= Seq::<(int, int)>::empty());
        assert(spans.take(1)[0] == spans[0]);
        assert(spans.take(0) =~= Seq::<(int, int)>::empty());
    } else {
        assert(spans.take(i + 1)[0] == spans[0]);
        assert(spans.take(i)[0] == spans[0]);
        assert(spans.take(i + 1).drop_first() =~= spans.drop_first().take(i));
        assert(spans.take(i).drop_first() =~= spans.drop_first().take(i - 1));
        lemma_spans_take_snoc(spans.drop_first(), i - 1);
        assert(spans.drop_first()[i - 1] == spans[i]);
    }
}

} // verus!
