//! The text normalizer: line breaks unified, words hyphenated across a line
//! break joined, running page headers and footers dropped, white space
//! collapsed within lines, at most one blank line in a row, and the whole
//! trimmed.
use vstd::prelude::*;
use crate::chunk_plan::{trimmed, trim_spec};
use crate::scan::blank_end;
use crate::text::{whitespace, alphanumeric, is_whitespace, is_alphanumeric, chars_of, string_of};

verus! {

broadcast use vstd::seq::group_seq_axioms;

// ---------------------------------------------------------------- pieces

/// The pieces of `s[start..]` between occurrences of `sep`, where
/// `s[start..i]` holds none; there is always at least one piece.
pub open spec fn split_from(s: Seq<char>, sep: char, start: int, i: int) -> Seq<Seq<char>>
    decreases s.len() - i,
{
    if start < 0 || i < start || i >= s.len() {
        seq![s.subrange(start, s.len() as int)]
    } else if s[i] == sep {
        seq![s.subrange(start, i)] + split_from(s, sep, i + 1, i + 1)
    } else {
        split_from(s, sep, start, i + 1)
    }
}

pub open spec fn split_on(s: Seq<char>, sep: char) -> Seq<Seq<char>> {
    split_from(s, sep, 0, 0)
}

/// The pieces joined with `sep` between them.
pub open spec fn join(parts: Seq<Seq<char>>, sep: char) -> Seq<char>
    decreases parts.len(),
{
    if parts.len() == 0 {
        seq![]
    } else if parts.len() == 1 {
        parts[0]
    } else {
        join(parts.drop_last(), sep) + seq![sep] + parts.last()
    }
}

pub open spec fn char_views(v: Seq<Vec<char>>) -> Seq<Seq<char>> {
    v.map_values(|x: Vec<char>| x@)
}

fn split_chars(s: &Vec<char>, sep: char) -> (r: Vec<Vec<char>>)
    ensures
        char_views(r@) == split_on(s@, sep),
{
    let mut parts: Vec<Vec<char>> = Vec::new();
    let mut cur: Vec<char> = Vec::new();
    let mut start: usize = 0;
    let mut i: usize = 0;
    assert(char_views(parts@) + split_from(s@, sep, 0, 0) =~= split_on(s@, sep));
    while i < s.len()
        invariant
            start <= i <= s.len(),
            cur@ == s@.subrange(start as int, i as int),
            split_on(s@, sep) == char_views(parts@) + split_from(s@, sep, start as int, i as int),
        decreases s.len() - i,
    {
        if s[i] == sep {
            let ghost before = char_views(parts@);
            let ghost piece = cur@;
            let ghost at = i as int;
            parts.push(cur);
            cur = Vec::new();
            i += 1;
            start = i;
            assert(char_views(parts@) =~= before.push(piece));
            assert(before + (seq![piece] + split_from(s@, sep, start as int, i as int)) =~= char_views(parts@)
                + split_from(s@, sep, start as int, i as int));
        } else {
            cur.push(s[i]);
            i += 1;
            assert(cur@ =~= s@.subrange(start as int, i as int));
        }
    }
    let ghost before = char_views(parts@);
    let ghost piece = cur@;
    parts.push(cur);
    assert(char_views(parts@) =~= before + seq![piece]);
    parts
}

fn join_chars(parts: &Vec<Vec<char>>, sep: char) -> (r: Vec<char>)
    ensures
        r@ == join(char_views(parts@), sep),
{
    let r = join_range(parts, 0, parts.len(), sep);
    assert(char_views(parts@).subrange(0, parts@.len() as int) =~= char_views(parts@));
    r
}

/// The pieces `from..to` joined with `sep`.
fn join_range(parts: &Vec<Vec<char>>, from: usize, to: usize, sep: char) -> (r: Vec<char>)
    requires
        from <= to <= parts.len(),
    ensures
        r@ == join(char_views(parts@).subrange(from as int, to as int), sep),
{
    let mut out: Vec<char> = Vec::new();
    let mut i: usize = from;
    while i < to
        invariant
            from <= i <= to <= parts.len(),
            out@ == join(char_views(parts@).subrange(from as int, i as int), sep),
        decreases to - i,
    {
        let ghost done = char_views(parts@).subrange(from as int, i as int);
        if i > from {
            out.push(sep);
        }
        let piece = &parts[i];
        let mut k: usize = 0;
        let ghost base = out@;
        while k < piece.len()
            invariant
                k <= piece.len(),
                out@ == base + piece@.subrange(0, k as int),
            decreases piece.len() - k,
        {
            out.push(piece[k]);
            k += 1;
            assert(out@ =~= base + piece@.subrange(0, k as int));
        }
        proof {
            let next = char_views(parts@).subrange(from as int, i + 1);
            assert(next.drop_last() =~= done);
            assert(piece@.subrange(0, k as int) =~= piece@);
            assert(out@ =~= join(next, sep));
        }
        i += 1;
    }
    out
}

fn trim_chars(s: &Vec<char>) -> (r: Vec<char>)
    ensures
        r@ == trimmed(s@),
{
    let mut lead: usize = 0;
    while lead < s.len() && is_whitespace(s[lead])
        invariant
            lead <= s.len(),
            blank_end(s@, 0) == blank_end(s@, lead as int),
        decreases s.len() - lead,
    {
        lead += 1;
    }
    let mut trail = s.len();
    while trail > lead && is_whitespace(s[trail - 1])
        invariant
            lead <= trail <= s.len(),
            crate::chunk_plan::trail_end(s@, lead as int, s.len() as int) == crate::chunk_plan::trail_end(
                s@,
                lead as int,
                trail as int,
            ),
        decreases trail,
    {
        trail -= 1;
    }
    let mut r: Vec<char> = Vec::new();
    let mut i = lead;
    while i < trail
        invariant
            lead <= i <= trail <= s.len(),
            r@ == s@.subrange(lead as int, i as int),
        decreases trail - i,
    {
        r.push(s[i]);
        i += 1;
        assert(r@ =~= s@.subrange(lead as int, i as int));
    }
    r
}

// ---------------------------------------------------------------- breaks

/// `s[i..]` with every CR LF and every lone CR turned into LF.
pub open spec fn unify_from(s: Seq<char>, i: int) -> Seq<char>
    decreases s.len() - i,
{
    if i < 0 || i >= s.len() {
        seq![]
    } else if s[i] == '\r' {
        let next = if i + 1 < s.len() && s[i + 1] == '\n' { i + 2 } else { i + 1 };
        seq!['\n'] + unify_from(s, next)
    } else {
        seq![s[i]] + unify_from(s, i + 1)
    }
}

pub open spec fn word_char(c: char) -> bool {
    alphanumeric(c) || c == '_'
}

/// A hyphen at `i` that ends a line between two word characters.
pub open spec fn hyphen_break(s: Seq<char>, i: int) -> bool {
    &&& 1 <= i
    &&& i + 2 < s.len()
    &&& s[i] == '-'
    &&& s[i + 1] == '\n'
    &&& word_char(s[i - 1])
    &&& word_char(s[i + 2])
}

/// `s[i..]` with each hyphenated line break removed, joining the word.
pub open spec fn unhyphen_from(s: Seq<char>, i: int) -> Seq<char>
    decreases s.len() - i,
{
    if i < 0 || i >= s.len() {
        seq![]
    } else if hyphen_break(s, i) {
        unhyphen_from(s, i + 2)
    } else {
        seq![s[i]] + unhyphen_from(s, i + 1)
    }
}

fn unify_breaks(s: &Vec<char>) -> (r: Vec<char>)
    ensures
        r@ == unify_from(s@, 0),
{
    let mut out: Vec<char> = Vec::new();
    let mut i: usize = 0;
    while i < s.len()
        invariant
            i <= s.len(),
            unify_from(s@, 0) == out@ + unify_from(s@, i as int),
        decreases s.len() - i,
    {
        let ghost before = out@;
        let ghost at = i as int;
        if s[i] == '\r' {
            out.push('\n');
            if i + 1 < s.len() && s[i + 1] == '\n' {
                i += 2;
            } else {
                i += 1;
            }
        } else {
            out.push(s[i]);
            i += 1;
        }
        assert(before + unify_from(s@, at) =~= out@ + unify_from(s@, i as int));
    }
    assert(out@ + unify_from(s@, i as int) =~= out@);
    out
}

fn remove_hyphen_breaks(s: &Vec<char>) -> (r: Vec<char>)
    ensures
        r@ == unhyphen_from(s@, 0),
{
    let mut out: Vec<char> = Vec::new();
    let mut i: usize = 0;
    while i < s.len()
        invariant
            i <= s.len(),
            unhyphen_from(s@, 0) == out@ + unhyphen_from(s@, i as int),
        decreases s.len() - i,
    {
        let ghost before = out@;
        let ghost at = i as int;
        if s[i] == '-' && i >= 1 && s.len() - i > 2 && s[i + 1] == '\n' && (is_alphanumeric(s[i - 1])
            || s[i - 1] == '_') && (is_alphanumeric(s[i + 2]) || s[i + 2] == '_') {
            i += 2;
        } else {
            out.push(s[i]);
            i += 1;
        }
        assert(before + unhyphen_from(s@, at) =~= out@ + unhyphen_from(s@, i as int));
    }
    assert(out@ + unhyphen_from(s@, i as int) =~= out@);
    out
}

// ---------------------------------------------------------------- pages

/// The lines of a page as `str::lines` gives them: a final line break
/// opens no further line.
pub open spec fn page_lines(p: Seq<char>) -> Seq<Seq<char>> {
    let parts = split_on(p, '\n');
    if parts.len() > 0 && parts.last().len() == 0 {
        parts.drop_last()
    } else {
        parts
    }
}

/// The lines that are not blank.
pub open spec fn nonblank(ls: Seq<Seq<char>>) -> Seq<Seq<char>>
    decreases ls.len(),
{
    if ls.len() == 0 {
        seq![]
    } else if trimmed(ls.last()).len() > 0 {
        nonblank(ls.drop_last()).push(ls.last())
    } else {
        nonblank(ls.drop_last())
    }
}

/// The first (or last) non-blank line of a page, trimmed.
pub open spec fn edge_of(p: Seq<char>, first: bool) -> Option<Seq<char>> {
    let nb = nonblank(page_lines(p));
    if nb.len() == 0 {
        None
    } else if first {
        Some(trimmed(nb[0]))
    } else {
        Some(trimmed(nb.last()))
    }
}

/// How many pages have `x` as their first (or last) non-blank line.
pub open spec fn count_edge(pages: Seq<Seq<char>>, first: bool, x: Seq<char>) -> nat
    decreases pages.len(),
{
    if pages.len() == 0 {
        0
    } else {
        count_edge(pages.drop_last(), first, x) + if edge_of(pages.last(), first) == Some(x) {
            1nat
        } else {
            0nat
        }
    }
}

/// A line counts as a running header (or footer) when it opens (or closes)
/// more than half of the pages, and at least two.
pub open spec fn common_edge(pages: Seq<Seq<char>>, first: bool, x: Seq<char>) -> bool {
    let half = pages.len() / 2 + 1;
    count_edge(pages, first, x) >= if half > 2 { half } else { 2 }
}

pub open spec fn drop_front(ls: Seq<Seq<char>>, pages: Seq<Seq<char>>) -> Seq<Seq<char>>
    decreases ls.len(),
{
    if ls.len() > 0 && common_edge(pages, true, trimmed(ls[0])) {
        drop_front(ls.drop_first(), pages)
    } else {
        ls
    }
}

pub open spec fn drop_back(ls: Seq<Seq<char>>, pages: Seq<Seq<char>>) -> Seq<Seq<char>>
    decreases ls.len(),
{
    if ls.len() > 0 && common_edge(pages, false, trimmed(ls.last())) {
        drop_back(ls.drop_last(), pages)
    } else {
        ls
    }
}

/// A page without its running header and footer lines.
pub open spec fn page_out(p: Seq<char>, pages: Seq<Seq<char>>) -> Seq<char> {
    join(drop_back(drop_front(page_lines(p), pages), pages), '\n')
}

/// The text with running headers and footers removed from every page; a
/// text without a form feed has one page and is kept as it is.
pub open spec fn suppress(s: Seq<char>) -> Seq<char> {
    if !s.contains('\x0C') {
        s
    } else {
        let pages = split_on(s, '\x0C');
        join(Seq::new(pages.len(), |i: int| page_out(pages[i], pages)), '\x0C')
    }
}

fn chars_eq(a: &Vec<char>, b: &Vec<char>) -> (r: bool)
    ensures
        r == (a@ == b@),
{
    if a.len() != b.len() {
        return false;
    }
    let mut i: usize = 0;
    while i < a.len()
        invariant
            a@.len() == b@.len(),
            i <= a.len(),
            forall|k: int| 0 <= k < i ==> a@[k] == b@[k],
        decreases a.len() - i,
    {
        if a[i] != b[i] {
            return false;
        }
        i += 1;
    }
    assert(a@ =~= b@);
    true
}

fn page_lines_of(p: &Vec<char>) -> (r: Vec<Vec<char>>)
    ensures
        char_views(r@) == page_lines(p@),
{
    let mut parts = split_chars(p, '\n');
    let ghost all = char_views(parts@);
    proof {
        assert(all.len() > 0) by {
            lemma_split_nonempty(p@, '\n', 0, 0);
        }
    }
    let n = parts.len();
    if n > 0 && parts[n - 1].len() == 0 {
        parts.pop();
        assert(char_views(parts@) =~= all.drop_last());
    }
    parts
}

proof fn lemma_split_nonempty(s: Seq<char>, sep: char, start: int, i: int)
    requires
        0 <= start <= i,
    ensures
        split_from(s, sep, start, i).len() > 0,
    decreases s.len() - i,
{
    if i < s.len() {
        if s[i] == sep {
            lemma_split_nonempty(s, sep, i + 1, i + 1);
        } else {
            lemma_split_nonempty(s, sep, start, i + 1);
        }
    }
}

fn nonblank_lines(ls: &Vec<Vec<char>>) -> (r: Vec<Vec<char>>)
    ensures
        char_views(r@) == nonblank(char_views(ls@)),
{
    let mut out: Vec<Vec<char>> = Vec::new();
    let mut i: usize = 0;
    while i < ls.len()
        invariant
            i <= ls.len(),
            char_views(out@) == nonblank(char_views(ls@).subrange(0, i as int)),
        decreases ls.len() - i,
    {
        let t = trim_chars(&ls[i]);
        let ghost before = char_views(out@);
        proof {
            let next = char_views(ls@).subrange(0, i + 1);
            assert(next.drop_last() =~= char_views(ls@).subrange(0, i as int));
            assert(next.last() == ls@[i as int]@);
        }
        if t.len() > 0 {
            let copy = copy_chars(&ls[i]);
            out.push(copy);
            assert(char_views(out@) =~= before.push(ls@[i as int]@));
        }
        i += 1;
    }
    assert(char_views(ls@).subrange(0, i as int) =~= char_views(ls@));
    out
}

fn copy_chars(s: &Vec<char>) -> (r: Vec<char>)
    ensures
        r@ == s@,
{
    let mut r: Vec<char> = Vec::new();
    let mut i: usize = 0;
    while i < s.len()
        invariant
            i <= s.len(),
            r@ == s@.subrange(0, i as int),
        decreases s.len() - i,
    {
        r.push(s[i]);
        i += 1;
        assert(r@ =~= s@.subrange(0, i as int));
    }
    assert(s@.subrange(0, i as int) =~= s@);
    r
}

pub open spec fn opt_chars(o: Option<Vec<char>>) -> Option<Seq<char>> {
    match o {
        Some(v) => Some(v@),
        None => None,
    }
}

fn edge(p: &Vec<char>, first: bool) -> (r: Option<Vec<char>>)
    ensures
        opt_chars(r) == edge_of(p@, first),
{
    let lines = page_lines_of(p);
    let nb = nonblank_lines(&lines);
    if nb.len() == 0 {
        None
    } else if first {
        Some(trim_chars(&nb[0]))
    } else {
        Some(trim_chars(&nb[nb.len() - 1]))
    }
}

fn common(edges: &Vec<Option<Vec<char>>>, pages: Ghost<Seq<Seq<char>>>, first: bool, x: &Vec<char>) -> (r: bool)
    requires
        edges@.len() == pages@.len(),
        forall|k: int| 0 <= k < edges@.len() ==> #[trigger] opt_chars(edges@[k]) == edge_of(pages@[k], first),
    ensures
        r == common_edge(pages@, first, x@),
{
    let mut count: usize = 0;
    let mut k: usize = 0;
    while k < edges.len()
        invariant
            edges@.len() == pages@.len(),
            forall|j: int| 0 <= j < edges@.len() ==> #[trigger] opt_chars(edges@[j]) == edge_of(pages@[j], first),
            k <= edges.len(),
            count <= k,
            count == count_edge(pages@.subrange(0, k as int), first, x@),
        decreases edges.len() - k,
    {
        proof {
            let next = pages@.subrange(0, k + 1);
            assert(next.drop_last() =~= pages@.subrange(0, k as int));
            assert(next.last() == pages@[k as int]);
            assert(opt_chars(edges@[k as int]) == edge_of(pages@[k as int], first));
        }
        let hit = match &edges[k] {
            Some(e) => chars_eq(e, x),
            None => false,
        };
        if hit {
            count += 1;
        }
        k += 1;
    }
    assert(pages@.subrange(0, k as int) =~= pages@);
    let half = edges.len() / 2 + 1;
    let threshold = if half > 2 { half } else { 2 };
    count >= threshold
}

/// One page without its running header and footer lines.
fn clean_page(
    page: &Vec<char>,
    pages: Ghost<Seq<Seq<char>>>,
    heads: &Vec<Option<Vec<char>>>,
    tails: &Vec<Option<Vec<char>>>,
) -> (r: Vec<char>)
    requires
        heads@.len() == pages@.len(),
        tails@.len() == pages@.len(),
        forall|k: int| 0 <= k < heads@.len() ==> #[trigger] opt_chars(heads@[k]) == edge_of(pages@[k], true),
        forall|k: int| 0 <= k < tails@.len() ==> #[trigger] opt_chars(tails@[k]) == edge_of(pages@[k], false),
    ensures
        r@ == page_out(page@, pages@),
{
    let lines = page_lines_of(page);
    let ghost ls = char_views(lines@);
    let mut from: usize = 0;
    assert(ls.subrange(0, ls.len() as int) =~= ls);
    while from < lines.len() && common(heads, pages, true, &trim_chars(&lines[from]))
        invariant
            ls == char_views(lines@),
            from <= lines.len(),
            heads@.len() == pages@.len(),
            forall|k: int| 0 <= k < heads@.len() ==> #[trigger] opt_chars(heads@[k]) == edge_of(pages@[k], true),
            drop_front(ls, pages@) == drop_front(ls.subrange(from as int, ls.len() as int), pages@),
        decreases lines.len() - from,
    {
        assert(ls.subrange(from as int, ls.len() as int).drop_first() =~= ls.subrange(from + 1, ls.len() as int));
        from += 1;
    }
    let ghost front = ls.subrange(from as int, ls.len() as int);
    let mut to: usize = lines.len();
    while to > from && common(tails, pages, false, &trim_chars(&lines[to - 1]))
        invariant
            ls == char_views(lines@),
            from <= to <= lines.len(),
            front == ls.subrange(from as int, ls.len() as int),
            tails@.len() == pages@.len(),
            forall|k: int| 0 <= k < tails@.len() ==> #[trigger] opt_chars(tails@[k]) == edge_of(pages@[k], false),
            drop_back(front, pages@) == drop_back(ls.subrange(from as int, to as int), pages@),
        decreases to,
    {
        assert(ls.subrange(from as int, to as int).drop_last() =~= ls.subrange(from as int, to - 1));
        to -= 1;
    }
    proof {
        if from < lines.len() {
            assert(drop_front(front, pages@) == front);
        } else {
            assert(front =~= Seq::<Seq<char>>::empty());
        }
        if to > from {
            assert(drop_back(ls.subrange(from as int, to as int), pages@) == ls.subrange(from as int, to as int));
        }
    }
    join_range(&lines, from, to, '\n')
}

fn suppress_headers_footers(s: &Vec<char>) -> (r: Vec<char>)
    ensures
        r@ == suppress(s@),
{
    let mut i: usize = 0;
    while i < s.len() && s[i] != '\x0C'
        invariant
            i <= s.len(),
            forall|k: int| 0 <= k < i ==> s@[k] != '\x0C',
        decreases s.len() - i,
    {
        i += 1;
    }
    if i >= s.len() {
        return copy_chars(s);
    }
    assert(s@.contains('\x0C')) by {
        assert(s@[i as int] == '\x0C');
    }
    let pages = split_chars(s, '\x0C');
    let ghost pv = char_views(pages@);
    let mut heads: Vec<Option<Vec<char>>> = Vec::new();
    let mut tails: Vec<Option<Vec<char>>> = Vec::new();
    let mut k: usize = 0;
    while k < pages.len()
        invariant
            pv == char_views(pages@),
            k <= pages.len(),
            heads@.len() == k,
            tails@.len() == k,
            forall|j: int| 0 <= j < k ==> #[trigger] opt_chars(heads@[j]) == edge_of(pv[j], true),
            forall|j: int| 0 <= j < k ==> #[trigger] opt_chars(tails@[j]) == edge_of(pv[j], false),
        decreases pages.len() - k,
    {
        heads.push(edge(&pages[k], true));
        tails.push(edge(&pages[k], false));
        k += 1;
    }
    let mut outs: Vec<Vec<char>> = Vec::new();
    let mut k: usize = 0;
    while k < pages.len()
        invariant
            pv == char_views(pages@),
            heads@.len() == pv.len(),
            tails@.len() == pv.len(),
            forall|j: int| 0 <= j < heads@.len() ==> #[trigger] opt_chars(heads@[j]) == edge_of(pv[j], true),
            forall|j: int| 0 <= j < tails@.len() ==> #[trigger] opt_chars(tails@[j]) == edge_of(pv[j], false),
            k <= pages.len(),
            outs@.len() == k,
            forall|j: int| 0 <= j < k ==> #[trigger] outs@[j]@ == page_out(pv[j], pv),
        decreases pages.len() - k,
    {
        let page = clean_page(&pages[k], Ghost(pv), &heads, &tails);
        outs.push(page);
        k += 1;
    }
    assert(char_views(outs@) =~= Seq::new(pv.len(), |j: int| page_out(pv[j], pv)));
    join_chars(&outs, '\x0C')
}

// ---------------------------------------------------------------- lines

/// Form feeds turned into line breaks.
pub open spec fn ff_to_nl(s: Seq<char>) -> Seq<char> {
    Seq::new(s.len(), |i: int| if s[i] == '\x0C' { '\n' } else { s[i] })
}

/// The end of the run of characters other than white space from `j`.
pub open spec fn word_end(s: Seq<char>, j: int) -> int
    decreases s.len() - j,
{
    if 0 <= j < s.len() && !whitespace(s[j]) {
        word_end(s, j + 1)
    } else {
        j
    }
}

/// The words of `s[i..]`: its maximal runs of characters other than white
/// space.
pub open spec fn words_from(s: Seq<char>, i: int) -> Seq<Seq<char>>
    decreases s.len() - i,
{
    let j = blank_end(s, i);
    if i < 0 || j < i || j >= s.len() {
        seq![]
    } else {
        let k = word_end(s, j);
        if k <= j || k > s.len() {
            seq![]
        } else {
            seq![s.subrange(j, k)] + words_from(s, k)
        }
    }
}

/// A line with its words separated by single spaces.
pub open spec fn squeeze(line: Seq<char>) -> Seq<char> {
    join(words_from(line, 0), ' ')
}

/// Every line squeezed.
pub open spec fn squeeze_lines(s: Seq<char>) -> Seq<char> {
    let parts = split_on(s, '\n');
    join(Seq::new(parts.len(), |i: int| squeeze(parts[i])), '\n')
}

/// `s[i..]` with at most two line breaks in a row, where `run` breaks came
/// just before.
pub open spec fn limit_from(s: Seq<char>, i: int, run: int) -> Seq<char>
    decreases s.len() - i,
{
    if i < 0 || i >= s.len() {
        seq![]
    } else if s[i] == '\n' {
        if run < 2 {
            seq!['\n'] + limit_from(s, i + 1, run + 1)
        } else {
            limit_from(s, i + 1, run + 1)
        }
    } else {
        seq![s[i]] + limit_from(s, i + 1, 0)
    }
}

/// The normalized form of a text.
pub open spec fn normalize_spec(s: Seq<char>) -> Seq<char> {
    if s.len() == 0 {
        seq![]
    } else {
        let joined = unhyphen_from(unify_from(s, 0), 0);
        trimmed(limit_from(squeeze_lines(ff_to_nl(suppress(joined))), 0, 0))
    }
}

fn feeds_to_breaks(s: &Vec<char>) -> (r: Vec<char>)
    ensures
        r@ == ff_to_nl(s@),
{
    let mut out: Vec<char> = Vec::new();
    let mut i: usize = 0;
    while i < s.len()
        invariant
            i <= s.len(),
            out@ == ff_to_nl(s@).subrange(0, i as int),
        decreases s.len() - i,
    {
        if s[i] == '\x0C' {
            out.push('\n');
        } else {
            out.push(s[i]);
        }
        i += 1;
        assert(out@ =~= ff_to_nl(s@).subrange(0, i as int));
    }
    assert(ff_to_nl(s@).subrange(0, i as int) =~= ff_to_nl(s@));
    out
}

fn squeeze_line(s: &Vec<char>) -> (r: Vec<char>)
    ensures
        r@ == squeeze(s@),
{
    let mut out: Vec<char> = Vec::new();
    let mut i: usize = 0;
    let mut done = false;
    let mut any_word = false;
    let ghost mut ws: Seq<Seq<char>> = seq![];
    assert(ws + words_from(s@, 0) =~= words_from(s@, 0));
    while !done
        invariant
            i <= s.len(),
            done ==> words_from(s@, 0) == ws,
            !done ==> words_from(s@, 0) == ws + words_from(s@, i as int),
            out@ == join(ws, ' '),
            any_word == (ws.len() > 0),
        decreases s.len() - i, if done { 0int } else { 1int },
    {
        let mut j = i;
        while j < s.len() && is_whitespace(s[j])
            invariant
                i <= j <= s.len(),
                blank_end(s@, i as int) == blank_end(s@, j as int),
            decreases s.len() - j,
        {
            j += 1;
        }
        if j >= s.len() {
            assert(words_from(s@, i as int) =~= Seq::<Seq<char>>::empty());
            assert(ws + Seq::<Seq<char>>::empty() =~= ws);
            done = true;
        } else {
            let mut k = j;
            while k < s.len() && !is_whitespace(s[k])
                invariant
                    j <= k <= s.len(),
                    word_end(s@, j as int) == word_end(s@, k as int),
                    k == j ==> !whitespace(s@[j as int]),
                decreases s.len() - k,
            {
                k += 1;
            }
            let ghost w = s@.subrange(j as int, k as int);
            if any_word {
                out.push(' ');
            }
            let mut m = j;
            let ghost base = out@;
            while m < k
                invariant
                    j <= m <= k <= s.len(),
                    out@ == base + s@.subrange(j as int, m as int),
                decreases k - m,
            {
                out.push(s[m]);
                m += 1;
                assert(out@ =~= base + s@.subrange(j as int, m as int));
            }
            proof {
                assert(ws.push(w).drop_last() =~= ws);
                assert(out@ =~= join(ws.push(w), ' '));
                assert(ws + (seq![w] + words_from(s@, k as int)) =~= ws.push(w) + words_from(s@, k as int));
                ws = ws.push(w);
            }
            any_word = true;
            i = k;
        }
    }
    out
}

fn squeeze_all_lines(s: &Vec<char>) -> (r: Vec<char>)
    ensures
        r@ == squeeze_lines(s@),
{
    let parts = split_chars(s, '\n');
    let ghost pv = char_views(parts@);
    let mut outs: Vec<Vec<char>> = Vec::new();
    let mut k: usize = 0;
    while k < parts.len()
        invariant
            pv == char_views(parts@),
            k <= parts.len(),
            outs@.len() == k,
            forall|j: int| 0 <= j < k ==> #[trigger] outs@[j]@ == squeeze(pv[j]),
        decreases parts.len() - k,
    {
        outs.push(squeeze_line(&parts[k]));
        k += 1;
    }
    assert(char_views(outs@) =~= Seq::new(pv.len(), |j: int| squeeze(pv[j])));
    join_chars(&outs, '\n')
}

fn collapse_blank_lines(s: &Vec<char>) -> (r: Vec<char>)
    ensures
        r@ == limit_from(s@, 0, 0),
{
    let mut out: Vec<char> = Vec::new();
    let mut run: usize = 0;
    let mut i: usize = 0;
    while i < s.len()
        invariant
            i <= s.len(),
            run <= i,
            limit_from(s@, 0, 0) == out@ + limit_from(s@, i as int, run as int),
        decreases s.len() - i,
    {
        let ghost before = out@;
        let ghost at = i as int;
        let ghost r0 = run as int;
        if s[i] == '\n' {
            if run < 2 {
                out.push('\n');
            }
            run += 1;
        } else {
            run = 0;
            out.push(s[i]);
        }
        i += 1;
        assert(before + limit_from(s@, at, r0) =~= out@ + limit_from(s@, i as int, run as int));
    }
    assert(out@ + limit_from(s@, i as int, run as int) =~= out@);
    out
}

/// Normalizes extracted text: CR LF and CR become LF; a word hyphenated
/// across a line break is joined; lines that open (or close) more than half
/// of the form-feed separated pages, and at least two, are dropped from the
/// start (or end) of every page; form feeds become line breaks; white space
/// within each line is collapsed to single spaces; no more than two line
/// breaks stand in a row; and the result is trimmed.
pub fn normalize_text(text: &str) -> (r: String)
    ensures
        r@ == normalize_spec(text@),
{
    let chars = chars_of(text);
    if chars.len() == 0 {
        return String::new();
    }
    let unified = unify_breaks(&chars);
    let joined = remove_hyphen_breaks(&unified);
    let kept = suppress_headers_footers(&joined);
    let flat = feeds_to_breaks(&kept);
    let squeezed = squeeze_all_lines(&flat);
    let limited = collapse_blank_lines(&squeezed);
    let trimmed_chars = trim_chars(&limited);
    string_of(trimmed_chars.as_slice())
}

} // verus!
