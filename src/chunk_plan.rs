//! The chunk planner: cuts a text into paragraphs and each paragraph into
//! windows of at most `max_chars` characters that overlap by a bounded
//! number of characters, trimmed of white space at both ends.
use vstd::prelude::*;
use crate::scan::{blank_end, sub_chars};
use crate::text::{whitespace, is_whitespace, chars_of, push_char, push_decimal, decimal};
use vstd::string::*;
use vstd::utf8::encode_utf8;

verus! {

broadcast use vstd::seq::group_seq_axioms;

/// Why a chunk was cut: the window limit.
pub const REASON_SEGMENT: u32 = 1;

/// The score of every planned chunk.
pub const SCORE_DEFAULT: u32 = 0;

/// A planned chunk: positions count characters within its paragraph.
#[derive(Clone, Copy, Debug, PartialEq, Eq, Structural)]
pub struct ChunkEntry {
    pub index: u32,
    pub paragraph_index: u32,
    pub start: u32,
    pub length: u32,
    pub chars: u32,
    pub reason_code: u32,
    pub score: u32,
}

/// A chunk plan: the limits it was made with and its chunks in order.
#[derive(Clone, Debug)]
pub struct ChunkPlan {
    pub max_chars: u32,
    pub overlap: u32,
    pub chunks: Vec<ChunkEntry>,
}

/// The overlap actually used: none without a window limit, a quarter of the
/// window when the requested overlap would reach across a whole window.
pub open spec fn overlap_spec(max_chars: int, overlap: int) -> int {
    if max_chars == 0 {
        0
    } else if overlap >= max_chars {
        max_chars / 4
    } else {
        overlap
    }
}

fn effective_overlap(max_chars: usize, overlap: usize) -> (r: usize)
    ensures
        r == overlap_spec(max_chars as int, overlap as int),
        r < max_chars || max_chars == 0,
{
    if max_chars == 0 {
        return 0;
    }
    if overlap >= max_chars {
        return max_chars / 4;
    }
    overlap
}

/// The end of the text that remains once trailing white space at or after
/// `lead` is cut.
pub open spec fn trail_end(s: Seq<char>, lead: int, j: int) -> int
    decreases j,
{
    if j > lead && j > 0 && whitespace(s[j - 1]) {
        trail_end(s, lead, j - 1)
    } else {
        j
    }
}

/// The bounds of `s` without white space at either end.
pub open spec fn trim_spec(s: Seq<char>) -> (int, int) {
    let lead = blank_end(s, 0);
    (lead, trail_end(s, lead, s.len() as int))
}

fn trim_bounds(chars: &Vec<char>, from: usize, to: usize) -> (r: (usize, usize))
    requires
        from <= to <= chars.len(),
    ensures
        (r.0 as int, r.1 as int) == trim_spec(chars@.subrange(from as int, to as int)),
        r.0 <= r.1 <= to - from,
{
    let ghost s = chars@.subrange(from as int, to as int);
    let n = to - from;
    let mut lead: usize = 0;
    while lead < n && is_whitespace(chars[from + lead])
        invariant
            s == chars@.subrange(from as int, to as int),
            n == to - from,
            from <= to <= chars.len(),
            lead <= n,
            blank_end(s, 0) == blank_end(s, lead as int),
        decreases n - lead,
    {
        lead += 1;
    }
    let mut trail = n;
    while trail > lead && is_whitespace(chars[from + trail - 1])
        invariant
            s == chars@.subrange(from as int, to as int),
            n == to - from,
            from <= to <= chars.len(),
            lead <= trail <= n,
            trail_end(s, lead as int, n as int) == trail_end(s, lead as int, trail as int),
        decreases trail,
    {
        trail -= 1;
    }
    (lead, trail)
}

/// The trimmed windows of `p` from `start` on, as (start, length) pairs.
pub open spec fn windows(p: Seq<char>, max_chars: int, overlap: int, start: int) -> Seq<(int, int)>
    decreases p.len() - start,
{
    if start < 0 || start >= p.len() || max_chars <= 0 || overlap < 0 {
        seq![]
    } else {
        let end = if start + max_chars < p.len() { start + max_chars } else { p.len() as int };
        let (lead, trail) = trim_spec(p.subrange(start, end));
        let seg: Seq<(int, int)> = if lead < trail {
            seq![(start + lead, trail - lead)]
        } else {
            seq![]
        };
        if end >= p.len() {
            seg
        } else {
            let back = if end > overlap { end - overlap } else { 0 };
            let next = if back > start + 1 { back } else { start + 1 };
            seg + windows(p, max_chars, overlap, next)
        }
    }
}

/// The segments of a paragraph: one covering all of it without a window
/// limit, else its trimmed windows.
pub open spec fn segments_spec(p: Seq<char>, max_chars: int, overlap: int) -> Seq<(int, int)> {
    if max_chars == 0 {
        if p.len() == 0 {
            seq![]
        } else {
            seq![(0, p.len() as int)]
        }
    } else {
        windows(p, max_chars, overlap_spec(max_chars, overlap), 0)
    }
}

struct Segment {
    start: usize,
    length: usize,
}

spec fn segment_views(s: Seq<Segment>) -> Seq<(int, int)> {
    s.map_values(|g: Segment| (g.start as int, g.length as int))
}

fn split_with_overlap(text: &Vec<char>, max_chars: usize, overlap: usize) -> (r: Vec<Segment>)
    ensures
        segment_views(r@) == segments_spec(text@, max_chars as int, overlap as int),
        forall|k: int| 0 <= k < r@.len() ==> #[trigger] r@[k].start + r@[k].length <= text@.len(),
{
    let length = text.len();
    let mut output: Vec<Segment> = Vec::new();
    if max_chars == 0 {
        if length == 0 {
            return output;
        }
        output.push(Segment { start: 0, length });
        assert(segment_views(output@) =~= seq![(0int, length as int)]);
        return output;
    }
    let eff = effective_overlap(max_chars, overlap);
    let mut start: usize = 0;
    let mut done = false;
    assert(segment_views(output@) + windows(text@, max_chars as int, eff as int, 0) =~= windows(
        text@,
        max_chars as int,
        eff as int,
        0,
    ));
    while start < length && !done
        invariant
            length == text@.len(),
            max_chars > 0,
            eff == overlap_spec(max_chars as int, overlap as int),
            eff < max_chars,
            start <= length,
            done ==> segments_spec(text@, max_chars as int, overlap as int) == segment_views(output@),
            !done ==> segments_spec(text@, max_chars as int, overlap as int) == segment_views(output@)
                + windows(text@, max_chars as int, eff as int, start as int),
            forall|k: int| 0 <= k < output@.len() ==> #[trigger] output@[k].start + output@[k].length <= length,
        decreases length - start, if done { 0int } else { 1int },
    {
        let end = if max_chars < length - start { start + max_chars } else { length };
        let (lead, trail) = trim_bounds(text, start, end);
        let ghost before = segment_views(output@);
        if lead < trail {
            output.push(Segment { start: start + lead, length: trail - lead });
        }
        let ghost seg = segment_views(output@).subrange(before.len() as int, segment_views(output@).len() as int);
        assert(before + seg =~= segment_views(output@));
        if end >= length {
            done = true;
        } else {
            let back = if end > eff { end - eff } else { 0 };
            let next = if back > start + 1 { back } else { start + 1 };
            assert(before + (seg + windows(text@, max_chars as int, eff as int, next as int)) =~= segment_views(
                output@,
            ) + windows(text@, max_chars as int, eff as int, next as int));
            start = next;
        }
    }
    if !done {
        assert(windows(text@, max_chars as int, eff as int, start as int) =~= Seq::<(int, int)>::empty());
        assert(segment_views(output@) + Seq::<(int, int)>::empty() =~= segment_views(output@));
    }
    output
}

proof fn lemma_windows_len(p: Seq<char>, max_chars: int, overlap: int, start: int)
    requires
        0 <= start,
    ensures
        windows(p, max_chars, overlap, start).len() <= if start < p.len() { p.len() - start } else { 0 },
    decreases p.len() - start,
{
    if start < p.len() && max_chars > 0 && overlap >= 0 {
        let end = if start + max_chars < p.len() { start + max_chars } else { p.len() as int };
        if end < p.len() {
            let back = if end > overlap { end - overlap } else { 0 };
            let next = if back > start + 1 { back } else { start + 1 };
            lemma_windows_len(p, max_chars, overlap, next);
        }
    }
}

/// The pieces of `s[start..]` between occurrences of a blank line marker
/// `\n\n`, left to right, where `s[start..i]` holds none.
pub open spec fn pieces_from(s: Seq<char>, start: int, i: int) -> Seq<Seq<char>>
    decreases s.len() - i,
{
    if start < 0 || i < start || i + 1 >= s.len() {
        seq![s.subrange(start, s.len() as int)]
    } else if s[i] == '\n' && s[i + 1] == '\n' {
        seq![s.subrange(start, i)] + pieces_from(s, i + 2, i + 2)
    } else {
        pieces_from(s, start, i + 1)
    }
}

/// A piece without white space at either end.
pub open spec fn trimmed(p: Seq<char>) -> Seq<char> {
    let (a, b) = trim_spec(p);
    if 0 <= a <= b <= p.len() {
        p.subrange(a, b)
    } else {
        seq![]
    }
}

/// The trimmed pieces that are not empty, in order.
pub open spec fn kept(pieces: Seq<Seq<char>>) -> Seq<Seq<char>>
    decreases pieces.len(),
{
    if pieces.len() == 0 {
        seq![]
    } else {
        let t = trimmed(pieces[0]);
        if t.len() > 0 {
            seq![t] + kept(pieces.drop_first())
        } else {
            kept(pieces.drop_first())
        }
    }
}

/// The paragraphs of a text: its pieces between blank lines, trimmed, the
/// empty ones dropped.
pub open spec fn paragraphs_of(s: Seq<char>) -> Seq<Seq<char>> {
    if s.len() == 0 {
        seq![]
    } else {
        kept(pieces_from(s, 0, 0))
    }
}

/// The entry of the `j`-th segment `seg` of paragraph `k`, numbered `index`.
pub open spec fn entry_spec(index: int, k: int, seg: (int, int)) -> ChunkEntry {
    ChunkEntry {
        index: index as u32,
        paragraph_index: k as u32,
        start: seg.0 as u32,
        length: seg.1 as u32,
        chars: seg.1 as u32,
        reason_code: REASON_SEGMENT,
        score: SCORE_DEFAULT,
    }
}

/// The entries of a sequence of paragraphs: the segments of each in turn,
/// numbered consecutively from zero.
pub open spec fn plan_entries(pars: Seq<Seq<char>>, max_chars: int, overlap: int) -> Seq<ChunkEntry>
    decreases pars.len(),
{
    if pars.len() == 0 {
        seq![]
    } else {
        let before = plan_entries(pars.drop_last(), max_chars, overlap);
        let segs = segments_spec(pars.last(), max_chars, overlap);
        before + Seq::new(
            segs.len(),
            |j: int| entry_spec(before.len() + j, pars.len() - 1, segs[j]),
        )
    }
}

/// The plan of a text.
pub open spec fn plan_spec(text: Seq<char>, max_chars: int, overlap: int) -> (int, int, Seq<ChunkEntry>) {
    (max_chars, overlap_spec(max_chars, overlap), plan_entries(paragraphs_of(text), max_chars, overlap))
}

/// Appends the entries of one paragraph.
fn push_paragraph(
    chunks: &mut Vec<ChunkEntry>,
    para: &Vec<char>,
    para_index: usize,
    max_chars: usize,
    overlap: usize,
)
    requires
        para@.len() <= u32::MAX,
        para_index <= u32::MAX,
        old(chunks)@.len() + para@.len() <= u32::MAX,
    ensures
        final(chunks)@ == old(chunks)@ + Seq::new(
            segments_spec(para@, max_chars as int, overlap as int).len(),
            |j: int| entry_spec(old(chunks)@.len() + j, para_index as int, segments_spec(para@, max_chars as int, overlap as int)[j]),
        ),
        final(chunks)@.len() <= old(chunks)@.len() + para@.len(),
{
    let segments = split_with_overlap(para, max_chars, overlap);
    let ghost segs = segments_spec(para@, max_chars as int, overlap as int);
    let ghost base = chunks@;
    proof {
        if max_chars > 0 {
            lemma_windows_len(para@, max_chars as int, overlap_spec(max_chars as int, overlap as int), 0);
        }
        assert(segs.len() == segments@.len());
    }
    let mut j: usize = 0;
    while j < segments.len()
        invariant
            segs == segments_spec(para@, max_chars as int, overlap as int),
            segs == segment_views(segments@),
            segs.len() <= para@.len(),
            base.len() + para@.len() <= u32::MAX,
            para_index <= u32::MAX,
            forall|k: int| 0 <= k < segments@.len() ==> #[trigger] segments@[k].start + segments@[k].length <= para@.len(),
            j <= segments.len(),
            chunks@ == base + Seq::new(j as nat, |i: int| entry_spec(base.len() + i, para_index as int, segs[i])),
        decreases segments.len() - j,
    {
        let seg = &segments[j];
        assert(segs[j as int] == (seg.start as int, seg.length as int));
        let entry = ChunkEntry {
            index: (chunks.len()) as u32,
            paragraph_index: para_index as u32,
            start: seg.start as u32,
            length: seg.length as u32,
            chars: seg.length as u32,
            reason_code: REASON_SEGMENT,
            score: SCORE_DEFAULT,
        };
        chunks.push(entry);
        j += 1;
        assert(chunks@ =~= base + Seq::new(j as nat, |i: int| entry_spec(base.len() + i, para_index as int, segs[i])));
    }
}

/// Plans the chunks of `text`: paragraphs are the pieces between blank
/// lines, trimmed, empty ones dropped; each is cut into windows of at most
/// `max_chars` characters (the whole paragraph when it is zero) that step
/// back by the effective overlap, each trimmed and dropped when blank.
pub fn plan_chunks(text: &str, max_chars: u32, overlap: u32) -> (r: ChunkPlan)
    requires
        text@.len() <= u32::MAX,
    ensures
        (r.max_chars as int, r.overlap as int, r.chunks@) == plan_spec(text@, max_chars as int, overlap as int),
{
    let max_chars_usize = max_chars as usize;
    let overlap_usize = overlap as usize;
    let effective = effective_overlap(max_chars_usize, overlap_usize) as u32;
    let mut chunks: Vec<ChunkEntry> = Vec::new();
    let chars = chars_of(text);
    let n = chars.len();
    if n == 0 {
        return ChunkPlan { max_chars, overlap: effective, chunks };
    }
    let ghost pars = paragraphs_of(text@);
    let ghost m = max_chars as int;
    let ghost o = overlap as int;
    let mut para_index: usize = 0;
    let mut start: usize = 0;
    let mut i: usize = 0;
    let ghost done_pars: Seq<Seq<char>> = seq![];
    assert(done_pars + kept(pieces_from(chars@, 0, 0)) =~= pars);
    while i < n - 1
        invariant
            chars@ == text@,
            n == chars@.len(),
            n <= u32::MAX,
            n > 0,
            start <= i,
            i <= n,
            pars == paragraphs_of(text@),
            pars == done_pars + kept(pieces_from(chars@, start as int, i as int)),
            para_index == done_pars.len(),
            para_index <= start,
            chunks@.len() <= start,
            chunks@ == plan_entries(done_pars, m, o),
            m == max_chars as int,
            o == overlap as int,
            max_chars_usize == max_chars as usize,
            overlap_usize == overlap as usize,
        decreases n - i,
    {
        if chars[i] == '\n' && chars[i + 1] == '\n' {
            let (lead, trail) = trim_bounds(&chars, start, i);
            let ghost piece = chars@.subrange(start as int, i as int);
            assert(pieces_from(chars@, start as int, i as int) == seq![piece] + pieces_from(chars@, i + 2, i + 2));
            assert(seq![piece] + pieces_from(chars@, i + 2, i + 2) =~= seq![piece].add(pieces_from(chars@, i + 2, i + 2)));
            if lead < trail {
                let para = sub_chars(&chars, start + lead, start + trail);
                assert(para@ =~= trimmed(piece));
                let ghost old_chunks = chunks@;
                push_paragraph(&mut chunks, &para, para_index, max_chars_usize, overlap_usize);
                proof {
                    assert(done_pars.push(para@).drop_last() =~= done_pars);
                    let segs = segments_spec(para@, m, o);
                    assert(chunks@ =~= plan_entries(done_pars, m, o) + Seq::new(
                        segs.len(),
                        |j: int| entry_spec(old_chunks.len() + j, done_pars.len() as int, segs[j]),
                    ));
                    done_pars = done_pars.push(para@);
                    assert((seq![para@] + kept(pieces_from(chars@, i + 2, i + 2))).drop_first() =~= kept(pieces_from(chars@, i + 2, i + 2)));
                }
                para_index += 1;
            }
            proof {
                assert(kept(seq![piece] + pieces_from(chars@, i + 2, i + 2)) == (if trimmed(piece).len() > 0 {
                    seq![trimmed(piece)] + kept(pieces_from(chars@, i + 2, i + 2))
                } else {
                    kept(pieces_from(chars@, i + 2, i + 2))
                })) by {
                    assert((seq![piece] + pieces_from(chars@, i + 2, i + 2)).drop_first() =~= pieces_from(chars@, i + 2, i + 2));
                }
            }
            i = i + 2;
            start = i;
        } else {
            i = i + 1;
        }
    }
    // the last piece runs to the end of the text
    let (lead, trail) = trim_bounds(&chars, start, n);
    let ghost piece = chars@.subrange(start as int, n as int);
    assert(pieces_from(chars@, start as int, i as int) == seq![piece]);
    if lead < trail {
        let para = sub_chars(&chars, start + lead, start + trail);
        assert(para@ =~= trimmed(piece));
        let ghost old_chunks = chunks@;
        push_paragraph(&mut chunks, &para, para_index, max_chars_usize, overlap_usize);
        proof {
            assert(done_pars.push(para@).drop_last() =~= done_pars);
            let segs = segments_spec(para@, m, o);
            assert(chunks@ =~= plan_entries(done_pars, m, o) + Seq::new(
                segs.len(),
                |j: int| entry_spec(old_chunks.len() + j, done_pars.len() as int, segs[j]),
            ));
            done_pars = done_pars.push(para@);
        }
    }
    proof {
        assert(seq![piece].drop_first() =~= Seq::<Seq<char>>::empty());
        assert(kept(Seq::<Seq<char>>::empty()) == Seq::<Seq<char>>::empty());
        if lead < trail {
            assert(kept(seq![piece]) =~= seq![trimmed(piece)]);
        } else {
            assert(kept(seq![piece]) =~= Seq::<Seq<char>>::empty());
        }
        assert(pars =~= done_pars);
    }
    ChunkPlan { max_chars, overlap: effective, chunks }
}

/// One chunk as a JSON object, keys in lexicographic order.
pub open spec fn entry_text(e: ChunkEntry) -> Seq<char> {
    "{\"chars\":"@ + decimal(e.chars as nat) + ",\"index\":"@ + decimal(e.index as nat) + ",\"length\":"@
        + decimal(e.length as nat) + ",\"paragraph_index\":"@ + decimal(e.paragraph_index as nat)
        + ",\"reason_code\":"@ + decimal(e.reason_code as nat) + ",\"score\":"@ + decimal(e.score as nat)
        + ",\"start\":"@ + decimal(e.start as nat) + "}"@
}

/// Chunk objects separated by commas.
pub open spec fn entries_text(es: Seq<ChunkEntry>) -> Seq<char>
    decreases es.len(),
{
    if es.len() == 0 {
        seq![]
    } else if es.len() == 1 {
        entry_text(es[0])
    } else {
        entries_text(es.drop_last()) + seq![','] + entry_text(es.last())
    }
}

/// A plan as a JSON object: `chunks`, `max_chars`, `overlap`.
pub open spec fn plan_text(max_chars: u32, overlap: u32, es: Seq<ChunkEntry>) -> Seq<char> {
    "{\"chunks\":["@ + entries_text(es) + "]"@ + ",\"max_chars\":"@ + decimal(max_chars as nat)
        + ",\"overlap\":"@ + decimal(overlap as nat) + "}"@
}

fn write_entry(out: &mut String, chunk: &ChunkEntry)
    ensures
        final(out)@ == old(out)@ + entry_text(*chunk),
{
    out.append("{\"chars\":");
    push_decimal(out, chunk.chars as u128);
    out.append(",\"index\":");
    push_decimal(out, chunk.index as u128);
    out.append(",\"length\":");
    push_decimal(out, chunk.length as u128);
    out.append(",\"paragraph_index\":");
    push_decimal(out, chunk.paragraph_index as u128);
    out.append(",\"reason_code\":");
    push_decimal(out, chunk.reason_code as u128);
    out.append(",\"score\":");
    push_decimal(out, chunk.score as u128);
    out.append(",\"start\":");
    push_decimal(out, chunk.start as u128);
    out.append("}");
    assert(final(out)@ =~= old(out)@ + entry_text(*chunk));
}

/// The plan as UTF-8 JSON.
pub fn plan_to_json(plan: &ChunkPlan) -> (r: Vec<u8>)
    ensures
        r@ == encode_utf8(plan_text(plan.max_chars, plan.overlap, plan.chunks@)),
{
    let mut out = String::new();
    out.append("{\"chunks\":[");
    let ghost head = out@;
    let mut i: usize = 0;
    while i < plan.chunks.len()
        invariant
            i <= plan.chunks.len(),
            head == "{\"chunks\":["@,
            out@ == head + entries_text(plan.chunks@.subrange(0, i as int)),
        decreases plan.chunks.len() - i,
    {
        let ghost done = plan.chunks@.subrange(0, i as int);
        if i > 0 {
            push_char(&mut out, ',');
        }
        write_entry(&mut out, &plan.chunks[i]);
        proof {
            let next = plan.chunks@.subrange(0, i + 1);
            assert(next.drop_last() =~= done);
            assert(out@ =~= head + entries_text(next));
        }
        i += 1;
    }
    assert(plan.chunks@.subrange(0, i as int) =~= plan.chunks@);
    out.append("]");
    out.append(",\"max_chars\":");
    push_decimal(&mut out, plan.max_chars as u128);
    out.append(",\"overlap\":");
    push_decimal(&mut out, plan.overlap as u128);
    out.append("}");
    assert(out@ =~= plan_text(plan.max_chars, plan.overlap, plan.chunks@));
    out.as_str().as_bytes_vec()
}

} // verus!
