//! Splitting markdown into paragraph chunks: blank lines separate chunks, fenced code
//! blocks (``` or ~~~) are never split.

use vstd::prelude::*;

use crate::text::{
    all_whitespace, chars_of, is_blank, is_ws, join, join_lines, leading_ws, leading_ws_count,
    lacks, lines_of, run_len, run_len_from, split_on, text_lines, trim_start, views,
};

verus! {

/// Where the splitter stands after some lines: the chunks finished so far (each a list of
/// lines), the lines of the chunk being built, and the open fence (its marker and the length
/// of its opening run), if any.
pub struct ChunkState {
    pub done: Seq<Seq<Seq<char>>>,
    pub current: Seq<Seq<char>>,
    pub fence: Option<(char, nat)>,
}

/// The fence that `line` opens: after its indentation it starts with three or more backticks
/// or tildes; the fence is that character and the length of that run.
pub open spec fn fence_opening(line: Seq<char>) -> Option<(char, nat)> {
    let t = trim_start(line);
    if t.len() > 0 && (t[0] == '`' || t[0] == '~') && run_len(t, t[0]) >= 3 {
        Some((t[0], run_len(t, t[0])))
    } else {
        None
    }
}

/// Whether `line` closes a fence of `marker` opened with a run of `min_len`.
pub open spec fn closes_fence(line: Seq<char>, marker: char, min_len: nat) -> bool {
    run_len(trim_start(line), marker) >= min_len
}

/// The splitter's state before any line.
pub open spec fn initial_state() -> ChunkState {
    ChunkState { done: Seq::empty(), current: Seq::empty(), fence: None }
}

/// What one line does to the splitter's state.
pub open spec fn chunk_step(st: ChunkState, line: Seq<char>) -> ChunkState {
    match st.fence {
        Some((marker, min_len)) => ChunkState {
            done: st.done,
            current: st.current.push(line),
            fence: if closes_fence(line, marker, min_len) {
                None
            } else {
                st.fence
            },
        },
        None => match fence_opening(line) {
            Some(f) => ChunkState { done: st.done, current: st.current.push(line), fence: Some(f) },
            None => if is_blank(line) {
                if st.current.len() > 0 {
                    ChunkState { done: st.done.push(st.current), current: Seq::empty(), fence: None }
                } else {
                    st
                }
            } else {
                ChunkState { done: st.done, current: st.current.push(line), fence: None }
            },
        },
    }
}

/// The splitter's state after `lines`, starting from `start`.
pub open spec fn chunk_run(start: ChunkState, lines: Seq<Seq<char>>) -> ChunkState
    decreases lines.len(),
{
    if lines.len() == 0 {
        start
    } else {
        chunk_step(chunk_run(start, lines.drop_last()), lines.last())
    }
}

/// The finished chunks of a state, the one being built included when it has lines.
pub open spec fn flush(st: ChunkState) -> Seq<Seq<Seq<char>>> {
    if st.current.len() > 0 {
        st.done.push(st.current)
    } else {
        st.done
    }
}

/// The chunks of `lines`, each as its list of lines.
pub open spec fn line_groups(lines: Seq<Seq<char>>) -> Seq<Seq<Seq<char>>> {
    flush(chunk_run(initial_state(), lines))
}

/// A chunk's text: its lines joined with `\n`.
pub open spec fn chunk_text(group: Seq<Seq<char>>) -> Seq<char> {
    join(group, seq!['\n'])
}

/// The chunks of a markdown text.
pub open spec fn chunks_of(text: Seq<char>) -> Seq<Seq<char>> {
    line_groups(text_lines(text)).map_values(|g: Seq<Seq<char>>| chunk_text(g))
}

/// Split markdown into paragraph chunks on blank lines.
/// Fenced code blocks (``` or ~~~) are never split, even if they
/// contain blank lines.
pub fn split_chunks(text: &str) -> (r: Vec<String>)
    ensures
        views(r@) == chunks_of(text@),
        r.len() == 0 <==> is_blank(text@),
        forall|i: int| 0 <= i < r.len() ==> !is_blank(#[trigger] r[i]@),
{
    proof {
        law_no_chunks_iff_blank(text@);
        law_chunks_not_blank(text@);
    }
    let lines = lines_of(text);
    let ghost lv = views(lines@);
    let mut chunks: Vec<String> = Vec::new();
    let mut current: Vec<String> = Vec::new();
    let mut fence: Option<(char, usize)> = None;
    let ghost mut st = initial_state();
    proof {
        assert(lv.take(0) =~= Seq::<Seq<char>>::empty());
    }
    for k in 0..lines.len()
        invariant
            lv == views(lines@),
            lv == text_lines(text@),
            st == chunk_run(initial_state(), lv.take(k as int)),
            views(chunks@) == st.done.map_values(|g: Seq<Seq<char>>| chunk_text(g)),
            views(current@) == st.current,
            fence is None <==> st.fence is None,
            fence matches Some((m, n)) ==> st.fence == Some((m, n as nat)),
    {
        let line = &lines[k];
        let cs = chars_of(line.as_str());
        let lead = leading_ws_count(&cs);
        let ghost l = lv[k as int];
        proof {
            assert(cs@ == l);
            assert(lv.take(k + 1).drop_last() =~= lv.take(k as int));
            assert(lv.take(k + 1).last() == l);
            crate::text::lemma_leading_ws_bound(l);
        }
        let ghost t = trim_start(l);
        assert(t =~= cs@.skip(lead as int));
        let ghost next = chunk_step(st, l);
        let ghost old_chunks = views(chunks@);
        match fence {
            Some((marker, min_len)) => {
                let run = run_len_from(&cs, lead, marker);
                current.push(line.clone());
                if run >= min_len {
                    fence = None;
                }
            },
            None => {
                let mut opened = false;
                if lead < cs.len() {
                    let first = cs[lead];
                    if first == '`' || first == '~' {
                        let run = run_len_from(&cs, lead, first);
                        if run >= 3 {
                            fence = Some((first, run));
                            current.push(line.clone());
                            opened = true;
                        }
                    }
                }
                if !opened {
                    assert(fence_opening(l) is None);
                    if all_whitespace(&cs) {
                        if current.len() > 0 {
                            let chunk = join_lines(&current);
                            chunks.push(chunk);
                            current = Vec::new();
                            assert(views(chunks@) =~= old_chunks.push(chunk_text(st.current)));
                            assert(next.done.map_values(|g: Seq<Seq<char>>| chunk_text(g))
                                =~= st.done.map_values(|g: Seq<Seq<char>>| chunk_text(g)).push(
                                chunk_text(st.current),
                            ));
                        }
                    } else {
                        current.push(line.clone());
                    }
                }
            },
        }
        proof {
            st = next;
        }
        assert(views(current@) =~= st.current);
        assert(views(chunks@) =~= st.done.map_values(|g: Seq<Seq<char>>| chunk_text(g)));
    }
    proof {
        assert(lv.take(lines.len() as int) =~= lv);
    }
    let ghost before = views(chunks@);
    if current.len() > 0 {
        let chunk = join_lines(&current);
        chunks.push(chunk);
        assert(views(chunks@) =~= before.push(chunk_text(st.current)));
    }
    assert(views(chunks@) =~= chunks_of(text@));
    assert forall|i: int| 0 <= i < chunks.len() implies !is_blank(#[trigger] chunks[i]@) by {
        assert(chunks[i]@ == chunks_of(text@)[i]);
    }
    chunks
}

} // verus!

verus! {

/// What holds of the splitter's state after `lines` from the start.
spec fn run_facts(st: ChunkState, lines: Seq<Seq<char>>) -> bool {
    &&& (st.done.len() == 0 && st.current.len() == 0) <==> forall|k: int|
        0 <= k < lines.len() ==> is_blank(#[trigger] lines[k])
    &&& st.fence is Some ==> st.current.len() > 0
    &&& forall|g: int|
        0 <= g < st.done.len() ==> (#[trigger] st.done[g]).len() > 0 && !is_blank(st.done[g][0])
    &&& st.current.len() > 0 ==> !is_blank(st.current[0])
}

proof fn lemma_fence_opening_not_blank(line: Seq<char>)
    ensures
        fence_opening(line) is Some ==> !is_blank(line),
{
    crate::text::lemma_leading_ws_bound(line);
    if fence_opening(line) is Some {
        let t = trim_start(line);
        assert(t[0] == line[leading_ws(line) as int]);
    }
}

proof fn lemma_run_facts(lines: Seq<Seq<char>>)
    ensures
        run_facts(chunk_run(initial_state(), lines), lines),
    decreases lines.len(),
{
    if lines.len() > 0 {
        let prev = lines.drop_last();
        let l = lines.last();
        lemma_run_facts(prev);
        lemma_fence_opening_not_blank(l);
        let st = chunk_run(initial_state(), prev);
        let next = chunk_step(st, l);
        assert forall|k: int| 0 <= k < prev.len() implies #[trigger] prev[k] == lines[k] by {}
        if forall|k: int| 0 <= k < lines.len() ==> is_blank(#[trigger] lines[k]) {
            assert(forall|k: int| 0 <= k < prev.len() ==> is_blank(#[trigger] prev[k]));
            assert(is_blank(lines[lines.len() - 1]));
        }
        if next.done.len() == 0 && next.current.len() == 0 {
            assert(forall|k: int| 0 <= k < prev.len() ==> is_blank(#[trigger] prev[k]));
            assert forall|k: int| 0 <= k < lines.len() implies is_blank(#[trigger] lines[k]) by {
                if k < prev.len() {
                    assert(is_blank(prev[k]));
                }
            }
        }
        if st.current.len() > 0 {
            assert(st.current.push(l)[0] == st.current[0]);
        }
    }
}

/// A text yields no chunk exactly when it holds whitespace only.
pub proof fn law_no_chunks_iff_blank(text: Seq<char>)
    ensures
        chunks_of(text).len() == 0 <==> is_blank(text),
{
    let lines = text_lines(text);
    lemma_run_facts(lines);
    crate::text::lemma_blank_lines(text);
}

/// No chunk is blank: each holds a character that is not whitespace.
pub proof fn law_chunks_not_blank(text: Seq<char>)
    ensures
        forall|i: int| 0 <= i < chunks_of(text).len() ==> !is_blank(#[trigger] chunks_of(text)[i]),
{
    let lines = text_lines(text);
    let st = chunk_run(initial_state(), lines);
    lemma_run_facts(lines);
    let groups = flush(st);
    assert forall|i: int| 0 <= i < chunks_of(text).len() implies !is_blank(
        #[trigger] chunks_of(text)[i],
    ) by {
        let g = groups[i];
        assert(g.len() > 0 && !is_blank(g[0]));
        crate::text::lemma_join_prefix(g, seq!['\n']);
        let c = chunk_text(g);
        if is_blank(c) {
            assert forall|j: int| 0 <= j < g[0].len() implies is_ws(#[trigger] g[0][j]) by {
                assert(c.subrange(0, g[0].len() as int)[j] == c[j]);
            }
        }
    }
}

} // verus!

verus! {

proof fn lemma_chunk_run_concat(st: ChunkState, a: Seq<Seq<char>>, b: Seq<Seq<char>>)
    ensures
        chunk_run(st, a + b) == chunk_run(chunk_run(st, a), b),
    decreases b.len(),
{
    if b.len() == 0 {
        assert(a + b =~= a);
    } else {
        lemma_chunk_run_concat(st, a, b.drop_last());
        assert((a + b).drop_last() =~= a + b.drop_last());
        assert((a + b).last() == b.last());
    }
}

proof fn lemma_chunk_run_one(st: ChunkState, x: Seq<char>)
    ensures
        chunk_run(st, seq![x]) == chunk_step(st, x),
{
    assert(seq![x].drop_last() =~= Seq::<Seq<char>>::empty());
    assert(chunk_run(st, seq![x].drop_last()) == st);
    assert(seq![x].last() == x);
}

/// Chunks finished before a run stay in front of those the run finishes.
proof fn lemma_chunk_run_shift(d: Seq<Seq<Seq<char>>>, st: ChunkState, lines: Seq<Seq<char>>)
    ensures
        chunk_run(ChunkState { done: d + st.done, current: st.current, fence: st.fence }, lines)
            == (ChunkState {
            done: d + chunk_run(st, lines).done,
            current: chunk_run(st, lines).current,
            fence: chunk_run(st, lines).fence,
        }),
    decreases lines.len(),
{
    if lines.len() > 0 {
        lemma_chunk_run_shift(d, st, lines.drop_last());
        let r = chunk_run(st, lines.drop_last());
        assert((d + r.done).push(r.current) =~= d + r.done.push(r.current));
    } else {
        assert(ChunkState { done: d + st.done, current: st.current, fence: st.fence } == (
        ChunkState { done: d + chunk_run(st, lines).done, current: st.current, fence: st.fence }));
    }
}

/// Two chunk lists finished one after the other.
proof fn lemma_flush_shift(d: Seq<Seq<Seq<char>>>, st: ChunkState)
    ensures
        flush(ChunkState { done: d + st.done, current: st.current, fence: st.fence }) == d + flush(
            st,
        ),
{
    if st.current.len() > 0 {
        assert((d + st.done).push(st.current) =~= d + st.done.push(st.current));
    }
}

/// A blank line outside a fence ends the chunk being built, whatever it was.
proof fn lemma_blank_line_step(st: ChunkState, x: Seq<char>)
    requires
        st.fence is None,
        is_blank(x),
    ensures
        chunk_step(st, x) == (ChunkState { done: flush(st), current: Seq::empty(), fence: None }),
{
    lemma_fence_opening_not_blank(x);
    if st.current.len() == 0 {
        assert(st.current =~= Seq::<Seq<char>>::empty());
    }
}

/// Paragraphs are separated by blank lines: a blank line outside a fence splits the chunks of
/// the lines before it from those of the lines after it.
pub proof fn law_blank_line_separates(a: Seq<Seq<char>>, x: Seq<char>, c: Seq<Seq<char>>)
    requires
        chunk_run(initial_state(), a).fence is None,
        is_blank(x),
    ensures
        line_groups(a + seq![x] + c) == line_groups(a) + line_groups(c),
{
    let sa = chunk_run(initial_state(), a);
    lemma_chunk_run_concat(initial_state(), a + seq![x], c);
    lemma_chunk_run_concat(initial_state(), a, seq![x]);
    lemma_chunk_run_one(sa, x);
    lemma_blank_line_step(sa, x);
    let s1 = ChunkState { done: flush(sa), current: Seq::empty(), fence: None };
    assert(s1 == ChunkState {
        done: flush(sa) + initial_state().done,
        current: initial_state().current,
        fence: initial_state().fence,
    });
    lemma_chunk_run_shift(flush(sa), initial_state(), c);
    let rc = chunk_run(initial_state(), c);
    lemma_flush_shift(flush(sa), rc);
}

/// A fenced code block: its first line opens a fence, no line before its last closes it, and
/// its last line does.
pub open spec fn is_fenced_block(f: Seq<Seq<char>>) -> bool {
    &&& f.len() >= 2
    &&& fence_opening(f[0]) matches Some((marker, min_len))
    &&& forall|i: int| 1 <= i < f.len() - 1 ==> !closes_fence(#[trigger] f[i], marker, min_len)
    &&& closes_fence(f.last(), marker, min_len)
}

proof fn lemma_fence_prefix(st: ChunkState, f: Seq<Seq<char>>, j: int)
    requires
        st.fence is None,
        st.current.len() == 0,
        is_fenced_block(f),
        1 <= j < f.len(),
    ensures
        chunk_run(st, f.take(j)) == (ChunkState {
            done: st.done,
            current: f.take(j),
            fence: fence_opening(f[0]),
        }),
    decreases j,
{
    assert(f.take(j).drop_last() =~= f.take(j - 1));
    assert(f.take(j).last() == f[j - 1]);
    if j == 1 {
        assert(f.take(0) =~= Seq::<Seq<char>>::empty());
        assert(st.current.push(f[0]) =~= f.take(1));
    } else {
        lemma_fence_prefix(st, f, j - 1);
        assert(f.take(j - 1).push(f[j - 1]) =~= f.take(j));
    }
}

/// A fenced block run from outside any fence, with nothing pending, is one whole chunk and
/// leaves no fence open.
proof fn lemma_fenced_block_run(st: ChunkState, f: Seq<Seq<char>>)
    requires
        st.fence is None,
        st.current.len() == 0,
        is_fenced_block(f),
    ensures
        chunk_run(st, f) == (ChunkState { done: st.done, current: f, fence: None }),
{
    let n = f.len() as int;
    lemma_fence_prefix(st, f, n - 1);
    assert(f.take(n) =~= f);
    assert(f.take(n).drop_last() =~= f.take(n - 1));
    assert(f.take(n - 1).push(f[n - 1]) =~= f);
}

/// Fenced code blocks stay whole: a fenced block between two blank lines outside any fence
/// is one chunk, blank lines inside it included.
pub proof fn law_fenced_block_stays_whole(
    a: Seq<Seq<char>>,
    x: Seq<char>,
    f: Seq<Seq<char>>,
    y: Seq<char>,
    c: Seq<Seq<char>>,
)
    requires
        chunk_run(initial_state(), a).fence is None,
        is_blank(x),
        is_fenced_block(f),
        is_blank(y),
    ensures
        line_groups(a + seq![x] + f + seq![y] + c) == line_groups(a) + seq![f] + line_groups(c),
{
    let sa = chunk_run(initial_state(), a);
    lemma_chunk_run_concat(initial_state(), a + seq![x], f);
    lemma_chunk_run_concat(initial_state(), a, seq![x]);
    lemma_chunk_run_one(sa, x);
    lemma_blank_line_step(sa, x);
    let s1 = ChunkState { done: flush(sa), current: Seq::empty(), fence: None };
    lemma_fenced_block_run(s1, f);
    let a2 = a + seq![x] + f;
    assert(chunk_run(initial_state(), a2) == (ChunkState { done: flush(sa), current: f, fence: None }));
    law_blank_line_separates(a2, y, c);
    assert(line_groups(a2) =~= line_groups(a) + seq![f]);
}

/// A paragraph: non-blank lines of which none opens a fence.
pub open spec fn is_paragraph(p: Seq<Seq<char>>) -> bool {
    &&& p.len() >= 1
    &&& forall|i: int|
        0 <= i < p.len() ==> !is_blank(#[trigger] p[i]) && fence_opening(p[i]) is None
}

proof fn lemma_paragraph_run(st: ChunkState, p: Seq<Seq<char>>)
    requires
        st.fence is None,
        forall|i: int|
            0 <= i < p.len() ==> !is_blank(#[trigger] p[i]) && fence_opening(p[i]) is None,
    ensures
        chunk_run(st, p) == (ChunkState { done: st.done, current: st.current + p, fence: None }),
    decreases p.len(),
{
    if p.len() == 0 {
        assert(st.current + p =~= st.current);
    } else {
        let q = p.drop_last();
        assert forall|i: int| 0 <= i < q.len() implies !is_blank(#[trigger] q[i]) && fence_opening(
            q[i],
        ) is None by {
            assert(q[i] == p[i]);
        }
        lemma_paragraph_run(st, q);
        assert(!is_blank(p[p.len() - 1]));
        assert((st.current + q).push(p.last()) =~= st.current + p);
    }
}

/// A paragraph, its lines not separated by a blank line, is one chunk.
pub proof fn law_paragraph_is_one_chunk(p: Seq<Seq<char>>)
    requires
        is_paragraph(p),
    ensures
        line_groups(p) == seq![p],
        chunk_run(initial_state(), p).fence is None,
{
    lemma_paragraph_run(initial_state(), p);
    assert(Seq::<Seq<char>>::empty() + p =~= p);
    assert(Seq::<Seq<Seq<char>>>::empty().push(p) =~= seq![p]);
}

} // verus!

verus! {

/// The final line ending is optional: ending a text with `\n` changes none of its chunks,
/// unless it already ends with a line ending or a carriage return.
pub proof fn law_final_line_ending_optional(t: Seq<char>)
    requires
        t.len() == 0 || (t.last() != '\n' && t.last() != '\r'),
    ensures
        chunks_of(t.push('\n')) == chunks_of(t),
{
    if t.len() > 0 {
        crate::text::lemma_final_newline_lines(t);
    } else {
        assert(t.push('\n') =~= seq!['\n']);
        crate::text::lemma_newline_lines();
        let e = Seq::<char>::empty();
        assert(is_blank(e));
        lemma_chunk_run_one(initial_state(), e);
        lemma_blank_line_step(initial_state(), e);
        assert(text_lines(t) =~= Seq::<Seq<char>>::empty()) by {
            assert(split_on(t, '\n') == seq![Seq::<char>::empty()]);
        }
        assert(chunks_of(t.push('\n')) =~= chunks_of(t));
    }
}

} // verus!

verus! {

/// Every chunk is a non-empty list of lines whose first line is not blank.
pub proof fn law_chunk_starts_with_text(lines: Seq<Seq<char>>)
    ensures
        forall|g: int|
            0 <= g < line_groups(lines).len() ==> (#[trigger] line_groups(lines)[g]).len() > 0
                && !is_blank(line_groups(lines)[g][0]),
{
    lemma_run_facts(lines);
}

} // verus!

verus! {

/// A line that holds no line ending and no carriage return.
spec fn line_ok(l: Seq<char>) -> bool {
    lacks(l, '\n') && lacks(l, '\r')
}

/// Each chunk the splitter finishes, and the one it builds, would be built the same from the
/// start: from an empty state its lines give back just that chunk, no fence left open for a
/// finished one. Their lines are lines of the input.
proof fn lemma_clean_groups(lines: Seq<Seq<char>>)
    ensures
        ({
            let st = chunk_run(initial_state(), lines);
            &&& forall|g: int|
                0 <= g < st.done.len() ==> chunk_run(initial_state(), #[trigger] st.done[g]) == (
                ChunkState { done: Seq::empty(), current: st.done[g], fence: None })
            &&& chunk_run(initial_state(), st.current) == (ChunkState {
                done: Seq::empty(),
                current: st.current,
                fence: st.fence,
            })
            &&& (forall|k: int| 0 <= k < lines.len() ==> line_ok(#[trigger] lines[k])) ==> {
                &&& forall|g: int, k: int|
                    0 <= g < st.done.len() && 0 <= k < st.done[g].len() ==> line_ok(
                        #[trigger] st.done[g][k],
                    )
                &&& forall|k: int| 0 <= k < st.current.len() ==> line_ok(#[trigger] st.current[k])
            }
        }),
    decreases lines.len(),
{
    if lines.len() == 0 {
        assert(chunk_run(initial_state(), Seq::<Seq<char>>::empty()) == initial_state());
    } else {
        let pre = lines.drop_last();
        let l = lines.last();
        lemma_clean_groups(pre);
        let st = chunk_run(initial_state(), pre);
        let c = st.current;
        assert(c.push(l).drop_last() =~= c);
        assert(c.push(l).last() == l);
        assert(chunk_run(initial_state(), Seq::<Seq<char>>::empty()) == initial_state());
        if forall|k: int| 0 <= k < lines.len() ==> line_ok(#[trigger] lines[k]) {
            assert forall|k: int| 0 <= k < pre.len() implies line_ok(#[trigger] pre[k]) by {
                assert(pre[k] == lines[k]);
            }
            assert(line_ok(lines[lines.len() - 1]));
        }
    }
}

/// Chunks written one after another with a blank line between each two.
pub open spec fn spaced(gs: Seq<Seq<Seq<char>>>) -> Seq<Seq<char>>
    decreases gs.len(),
{
    if gs.len() == 0 {
        Seq::empty()
    } else if gs.len() == 1 {
        gs[0]
    } else {
        spaced(gs.drop_last()) + seq![Seq::<char>::empty()] + gs.last()
    }
}

proof fn lemma_spaced_shape(gs: Seq<Seq<Seq<char>>>)
    requires
        gs.len() >= 1,
        forall|i: int| 0 <= i < gs.len() ==> (#[trigger] gs[i]).len() > 0,
    ensures
        spaced(gs).len() >= 1,
        spaced(gs).last() == gs.last().last(),
        (forall|i: int, k: int|
            0 <= i < gs.len() && 0 <= k < gs[i].len() ==> line_ok(#[trigger] gs[i][k]))
            ==> forall|k: int| 0 <= k < spaced(gs).len() ==> line_ok(#[trigger] spaced(gs)[k]),
    decreases gs.len(),
{
    if gs.len() >= 2 {
        let d = gs.drop_last();
        assert forall|i: int| 0 <= i < d.len() implies (#[trigger] d[i]).len() > 0 by {
            assert(d[i] == gs[i]);
        }
        lemma_spaced_shape(d);
        let a = spaced(d);
        let e = seq![Seq::<char>::empty()];
        let g = gs.last();
        assert(spaced(gs) == a + e + g);
        if forall|i: int, k: int|
            0 <= i < gs.len() && 0 <= k < gs[i].len() ==> line_ok(#[trigger] gs[i][k]) {
            assert forall|i: int, k: int| 0 <= i < d.len() && 0 <= k < d[i].len() implies line_ok(
                #[trigger] d[i][k],
            ) by {
                assert(d[i] == gs[i]);
            }
            assert forall|k: int| 0 <= k < spaced(gs).len() implies line_ok(
                #[trigger] spaced(gs)[k],
            ) by {
                if k < a.len() {
                    assert(spaced(gs)[k] == a[k]);
                } else if k == a.len() {
                    assert(spaced(gs)[k] == Seq::<char>::empty());
                } else {
                    assert(spaced(gs)[k] == g[k - a.len() - 1]);
                    assert(line_ok(gs[gs.len() - 1][k - a.len() - 1]));
                }
            }
        }
    }
}

/// Re-splitting chunks written with a blank line between each two gives them back, when each
/// would be built the same from the start and only the last may leave a fence open.
proof fn lemma_spaced_run(gs: Seq<Seq<Seq<char>>>)
    requires
        gs.len() >= 1,
        forall|i: int| 0 <= i < gs.len() ==> (#[trigger] gs[i]).len() > 0,
        forall|i: int|
            0 <= i < gs.len() - 1 ==> chunk_run(initial_state(), #[trigger] gs[i]) == (ChunkState {
                done: Seq::empty(),
                current: gs[i],
                fence: None,
            }),
        chunk_run(initial_state(), gs.last()).done == Seq::<Seq<Seq<char>>>::empty(),
        chunk_run(initial_state(), gs.last()).current == gs.last(),
    ensures
        chunk_run(initial_state(), spaced(gs)) == (ChunkState {
            done: gs.drop_last(),
            current: gs.last(),
            fence: chunk_run(initial_state(), gs.last()).fence,
        }),
    decreases gs.len(),
{
    if gs.len() == 1 {
        assert(gs.drop_last() =~= Seq::<Seq<Seq<char>>>::empty());
    } else {
        let d = gs.drop_last();
        let g = gs.last();
        assert forall|i: int| 0 <= i < d.len() implies (#[trigger] d[i]).len() > 0 by {
            assert(d[i] == gs[i]);
        }
        assert forall|i: int| 0 <= i < d.len() - 1 implies chunk_run(initial_state(), #[trigger] d[i])
            == (ChunkState { done: Seq::empty(), current: d[i], fence: None }) by {
            assert(d[i] == gs[i]);
        }
        assert(d.last() == gs[gs.len() - 2]);
        lemma_spaced_run(d);
        let a = spaced(d);
        let e = Seq::<char>::empty();
        let sa = chunk_run(initial_state(), a);
        assert(is_blank(e));
        lemma_chunk_run_concat(initial_state(), a + seq![e], g);
        lemma_chunk_run_concat(initial_state(), a, seq![e]);
        lemma_chunk_run_one(sa, e);
        lemma_blank_line_step(sa, e);
        assert(flush(sa) =~= d);
        let s1 = ChunkState { done: d, current: Seq::empty(), fence: None };
        assert(s1 == ChunkState {
            done: d + initial_state().done,
            current: initial_state().current,
            fence: initial_state().fence,
        });
        lemma_chunk_run_shift(d, initial_state(), g);
        assert(d + Seq::<Seq<Seq<char>>>::empty() =~= d);
    }
}

/// Writing chunks with a blank line between each two is joining all their lines with `\n`.
proof fn lemma_join_spaced(gs: Seq<Seq<Seq<char>>>)
    requires
        gs.len() >= 1,
        forall|i: int| 0 <= i < gs.len() ==> (#[trigger] gs[i]).len() > 0,
    ensures
        join(spaced(gs), seq!['\n']) == join(
            gs.map_values(|g: Seq<Seq<char>>| chunk_text(g)),
            seq!['\n', '\n'],
        ),
    decreases gs.len(),
{
    let f = |g: Seq<Seq<char>>| chunk_text(g);
    let nl = seq!['\n'];
    if gs.len() == 1 {
        assert(gs.map_values(f) =~= seq![chunk_text(gs[0])]);
    } else {
        let d = gs.drop_last();
        let g = gs.last();
        assert forall|i: int| 0 <= i < d.len() implies (#[trigger] d[i]).len() > 0 by {
            assert(d[i] == gs[i]);
        }
        lemma_join_spaced(d);
        lemma_spaced_shape(d);
        let a = spaced(d);
        let e = Seq::<char>::empty();
        crate::text::lemma_join_concat(a + seq![e], g, nl);
        assert((a + seq![e]).drop_last() =~= a);
        assert((a + seq![e]).last() == e);
        assert(join(a + seq![e], nl) == join(a, nl) + nl + e);
        assert(gs.map_values(f).drop_last() =~= d.map_values(f));
        assert(gs.map_values(f).last() == chunk_text(g));
        assert(join(a, nl) + nl + e + nl + join(g, nl) =~= join(a, nl) + seq!['\n', '\n'] + join(
            g,
            nl,
        ));
    }
}

/// The chunks of a text without carriage returns, written back with a blank line between
/// each two, split into the same chunks, unless the last chunk ends with a line ending
/// (a fence left open up to a trailing blank line).
pub proof fn law_chunks_round_trip(t: Seq<char>)
    requires
        lacks(t, '\r'),
        chunks_of(t).len() > 0 ==> !(chunks_of(t).last().len() > 0 && chunks_of(t).last().last()
            == '\n'),
    ensures
        chunks_of(join(chunks_of(t), seq!['\n', '\n'])) == chunks_of(t),
{
    let lines = text_lines(t);
    let st = chunk_run(initial_state(), lines);
    let gs = flush(st);
    let cs = chunks_of(t);
    let f = |g: Seq<Seq<char>>| chunk_text(g);
    assert(cs == gs.map_values(f));
    crate::text::lemma_text_lines_lack(t, '\r');
    assert forall|k: int| 0 <= k < lines.len() implies line_ok(#[trigger] lines[k]) by {}
    lemma_clean_groups(lines);
    lemma_run_facts(lines);
    if gs.len() == 0 {
        let e = join(cs, seq!['\n', '\n']);
        assert(e =~= Seq::<char>::empty());
        assert(split_on(e, '\n') == seq![Seq::<char>::empty()]);
        assert(text_lines(e) =~= Seq::<Seq<char>>::empty());
        assert(chunks_of(e) =~= cs);
    } else {
        assert forall|i: int| 0 <= i < gs.len() implies (#[trigger] gs[i]).len() > 0 && !is_blank(
            gs[i][0],
        ) by {}
        assert forall|i: int, k: int| 0 <= i < gs.len() && 0 <= k < gs[i].len() implies line_ok(
            #[trigger] gs[i][k],
        ) by {
            if i < st.done.len() {
                assert(gs[i] == st.done[i]);
            } else {
                assert(gs[i] == st.current);
            }
        }
        assert forall|i: int| 0 <= i < gs.len() - 1 implies chunk_run(
            initial_state(),
            #[trigger] gs[i],
        ) == (ChunkState { done: Seq::empty(), current: gs[i], fence: None }) by {
            assert(gs[i] == st.done[i]);
        }
        if st.current.len() == 0 {
            assert(gs.last() == st.done[st.done.len() - 1]);
        }
        lemma_spaced_run(gs);
        lemma_spaced_shape(gs);
        lemma_join_spaced(gs);
        let l = spaced(gs);
        let g = gs.last();
        assert(cs.last() == chunk_text(g));
        if g.len() == 1 {
            assert(!is_blank(g[0]));
            assert(g.last().len() > 0);
        } else {
            if g.last().len() == 0 {
                let j = join(g.drop_last(), seq!['\n']) + seq!['\n'] + g.last();
                assert(chunk_text(g) == j);
                assert(j.last() == '\n');
            }
        }
        crate::text::lemma_lines_of_join(l);
        assert(gs.drop_last().push(gs.last()) =~= gs);
        assert(line_groups(l) == gs);
    }
}

} // verus!

verus! {

/// Indentation never stops a fence: whitespace before a line changes neither the fence it
/// opens nor whether it closes one, however much of it there is.
pub proof fn law_indent_keeps_fence(w: Seq<char>, l: Seq<char>, marker: char, min_len: nat)
    requires
        is_blank(w),
    ensures
        fence_opening(w + l) == fence_opening(l),
        closes_fence(w + l, marker, min_len) == closes_fence(l, marker, min_len),
{
    let s = w + l;
    assert forall|i: int| 0 <= i < w.len() implies is_ws(#[trigger] s[i]) by {
        assert(s[i] == w[i]);
    }
    crate::text::lemma_leading_ws_skip(s, w.len() as int);
    assert(s.skip(w.len() as int) =~= l);
    assert(leading_ws(s) == w.len() + leading_ws(l));
    crate::text::lemma_leading_ws_bound(l);
    assert(s.skip((w.len() + leading_ws(l)) as int) =~= l.skip(leading_ws(l) as int));
    assert(trim_start(s) =~= trim_start(l));
}

/// Indenting every line of a fenced block by the same whitespace keeps it a fenced block, so
/// it still stays one chunk.
pub proof fn law_indented_fenced_block(w: Seq<char>, f: Seq<Seq<char>>)
    requires
        is_blank(w),
        is_fenced_block(f),
    ensures
        is_fenced_block(f.map_values(|l: Seq<char>| w + l)),
{
    let g = f.map_values(|l: Seq<char>| w + l);
    let (marker, min_len) = fence_opening(f[0])->0;
    law_indent_keeps_fence(w, f[0], marker, min_len);
    law_indent_keeps_fence(w, f.last(), marker, min_len);
    assert(g[0] == w + f[0]);
    assert(g.last() == w + f.last());
    assert forall|i: int| 1 <= i < g.len() - 1 implies !closes_fence(#[trigger] g[i], marker, min_len)
        by {
        assert(g[i] == w + f[i]);
        law_indent_keeps_fence(w, f[i], marker, min_len);
    }
}

} // verus!

verus! {

/// What opens a fence, told by the line's characters: after whitespace only, a run of three
/// or more backticks or tildes, as long as the fence's length and of its marker, followed by
/// something else or by nothing. A line whose first non-whitespace characters are three
/// backticks or three tildes opens one.
pub proof fn law_fence_opening_by_chars(l: Seq<char>, j: int)
    requires
        0 <= j <= l.len(),
        is_blank(l.take(j)),
        j == l.len() || !is_ws(l[j]),
    ensures
        fence_opening(l) matches Some((m, k)) ==> {
            &&& m == '`' || m == '~'
            &&& k >= 3
            &&& j + k <= l.len()
            &&& forall|i: int| j <= i < j + k ==> #[trigger] l[i] == m
            &&& j + k == l.len() || l[j + k] != m
        },
        j + 3 <= l.len() && (l[j] == '`' || l[j] == '~') && l[j + 1] == l[j] && l[j + 2] == l[j]
            ==> fence_opening(l) is Some,
{
    assert forall|i: int| 0 <= i < j implies is_ws(#[trigger] l[i]) by {
        assert(l.take(j)[i] == l[i]);
    }
    crate::text::lemma_leading_ws_skip(l, j);
    let t = l.skip(j);
    if j < l.len() {
        assert(t[0] == l[j]);
    }
    assert(leading_ws(t) == 0);
    assert(t.skip(0) =~= t);
    assert(trim_start(l) =~= t);
    if t.len() > 0 {
        lemma_run_len_facts(t, t[0]);
        assert forall|i: int| j <= i < j + run_len(t, t[0]) implies #[trigger] l[i] == t[0] by {
            assert(l[i] == t[i - j]);
        }
        if j + run_len(t, t[0]) < l.len() {
            assert(l[j + run_len(t, t[0])] == t[run_len(t, t[0]) as int]);
        }
        if j + 3 <= l.len() && l[j + 1] == l[j] && l[j + 2] == l[j] {
            assert(t[1] == l[j + 1] && t[2] == l[j + 2]);
            assert(run_len(t, t[0]) >= 3) by {
                lemma_run_len_at_least(t, t[0], 3);
            }
        }
    }
}

/// What closes a fence of `marker` opened with a run of `min_len`, told by the line's
/// characters: after whitespace only, at least `min_len` of that same marker.
pub proof fn law_closes_fence_by_chars(l: Seq<char>, j: int, marker: char, min_len: nat)
    requires
        0 <= j <= l.len(),
        is_blank(l.take(j)),
        j == l.len() || !is_ws(l[j]),
    ensures
        closes_fence(l, marker, min_len) <==> (j + min_len <= l.len() && forall|i: int|
            j <= i < j + min_len ==> #[trigger] l[i] == marker),
{
    assert forall|i: int| 0 <= i < j implies is_ws(#[trigger] l[i]) by {
        assert(l.take(j)[i] == l[i]);
    }
    crate::text::lemma_leading_ws_skip(l, j);
    let t = l.skip(j);
    if j < l.len() {
        assert(t[0] == l[j]);
    }
    assert(leading_ws(t) == 0);
    assert(t.skip(0) =~= t);
    assert(trim_start(l) =~= t);
    lemma_run_len_facts(t, marker);
    if j + min_len <= l.len() && forall|i: int| j <= i < j + min_len ==> #[trigger] l[i] == marker {
        assert forall|i: int| 0 <= i < min_len implies #[trigger] t[i] == marker by {
            assert(t[i] == l[j + i]);
        }
        lemma_run_len_at_least(t, marker, min_len as int);
    }
    if closes_fence(l, marker, min_len) {
        assert forall|i: int| j <= i < j + min_len implies #[trigger] l[i] == marker by {
            assert(l[i] == t[i - j]);
        }
    }
}

proof fn lemma_run_len_facts(s: Seq<char>, c: char)
    ensures
        run_len(s, c) <= s.len(),
        forall|i: int| 0 <= i < run_len(s, c) ==> #[trigger] s[i] == c,
        run_len(s, c) < s.len() ==> s[run_len(s, c) as int] != c,
    decreases s.len(),
{
    if s.len() > 0 && s[0] == c {
        lemma_run_len_facts(s.drop_first(), c);
        assert forall|i: int| 0 <= i < run_len(s, c) implies #[trigger] s[i] == c by {
            if i > 0 {
                assert(s[i] == s.drop_first()[i - 1]);
            }
        }
    }
}

proof fn lemma_run_len_at_least(s: Seq<char>, c: char, n: int)
    requires
        0 <= n <= s.len(),
        forall|i: int| 0 <= i < n ==> #[trigger] s[i] == c,
    ensures
        run_len(s, c) >= n,
    decreases n,
{
    if n > 0 {
        assert(s[0] == c);
        assert forall|i: int| 0 <= i < n - 1 implies #[trigger] s.drop_first()[i] == c by {
            assert(s.drop_first()[i] == s[i + 1]);
        }
        lemma_run_len_at_least(s.drop_first(), c, n - 1);
    }
}

} // verus!
