//! Sizing the panes of the chunk view, and centring a popup.

use vstd::prelude::*;

use crate::text::{chars_of, split_on};

verus! {

/// How many rows `len` characters take at `width` columns (a width below 1 counts as 1):
/// one row for no character, else the rows that fit them all.
pub open spec fn rows_for_len(len: int, width: int) -> int {
    let w = if width < 1 {
        1
    } else {
        width
    };
    if len == 0 {
        1
    } else {
        (len + w - 1) / w
    }
}

/// The row count of one line as a `u16` (truncated when it does not fit).
pub open spec fn row_term(len: int, width: u16) -> int {
    (rows_for_len(len, width as int) as u16) as int
}

/// The sum of the row counts of `pieces`.
pub open spec fn rows_sum(pieces: Seq<Seq<char>>, width: u16) -> int
    decreases pieces.len(),
{
    if pieces.len() == 0 {
        0
    } else {
        rows_sum(pieces.drop_last(), width) + row_term(pieces.last().len() as int, width)
    }
}

/// The rows `text` takes at `width` columns, each `\n`-separated line wrapped on its own,
/// and at least one.
pub open spec fn wrapped_rows(text: Seq<char>, width: u16) -> int {
    let s = rows_sum(split_on(text, '\n'), width);
    if s < 1 {
        1
    } else {
        s
    }
}

/// Row count for `len` characters at `width` columns.
pub fn row_count_for_len(len: usize, width: u16) -> (r: u16)
    ensures
        r == rows_for_len(len as int, width as int) as u16,
        rows_for_len(len as int, width as int) <= u16::MAX ==> r == rows_for_len(
            len as int,
            width as int,
        ),
{
    let w: usize = if width < 1 {
        1
    } else {
        width as usize
    };
    if len == 0 {
        1
    } else {
        let q = len / w;
        let rows = if len % w == 0 {
            q
        } else {
            assert(q < len) by (nonlinear_arith)
                requires
                    q == len / w,
                    w >= 2,
                    len > 0,
            ;
            q + 1
        };
        assert(rows as int == (len as int + w as int - 1) / (w as int)) by (nonlinear_arith)
            requires
                q == len / w,
                w >= 1,
                len % w == 0 ==> rows == q,
                len % w != 0 ==> rows == q + 1,
        ;
        rows as u16
    }
}

proof fn lemma_rows_sum_prefix(pieces: Seq<Seq<char>>, width: u16, k: int)
    requires
        0 <= k <= pieces.len(),
    ensures
        rows_sum(pieces.take(k), width) <= rows_sum(pieces, width),
        rows_sum(pieces.take(k), width) >= 0,
    decreases pieces.len(),
{
    if k == pieces.len() {
        assert(pieces.take(k) =~= pieces);
        lemma_rows_sum_nonneg(pieces, width);
    } else {
        lemma_rows_sum_prefix(pieces.drop_last(), width, k);
        assert(pieces.drop_last().take(k) =~= pieces.take(k));
    }
}

proof fn lemma_rows_sum_nonneg(pieces: Seq<Seq<char>>, width: u16)
    ensures
        rows_sum(pieces, width) >= 0,
    decreases pieces.len(),
{
    if pieces.len() > 0 {
        lemma_rows_sum_nonneg(pieces.drop_last(), width);
    }
}

/// The lengths of the `\n`-separated pieces of `chars`.
fn piece_lengths(chars: &Vec<char>) -> (r: Vec<usize>)
    ensures
        r.len() == split_on(chars@, '\n').len(),
        forall|k: int| 0 <= k < r.len() ==> #[trigger] r[k] == split_on(chars@, '\n')[k].len(),
{
    let mut r: Vec<usize> = Vec::new();
    let mut cur: usize = 0;
    let mut i: usize = 0;
    let n = chars.len();
    proof {
        assert(chars@.take(0) =~= Seq::<char>::empty());
    }
    while i < n
        invariant
            n == chars.len(),
            i <= n,
            cur <= i,
            split_on(chars@.take(i as int), '\n').len() == r.len() + 1,
            split_on(chars@.take(i as int), '\n').last().len() == cur,
            forall|k: int|
                0 <= k < r.len() ==> #[trigger] r[k] == split_on(chars@.take(i as int), '\n')[k].len(),
        decreases n - i,
    {
        assert(chars@.take(i + 1).drop_last() =~= chars@.take(i as int));
        assert(chars@.take(i + 1).last() == chars@[i as int]);
        if chars[i] == '\n' {
            r.push(cur);
            cur = 0;
        } else {
            cur = cur + 1;
        }
        i = i + 1;
    }
    assert(chars@.take(n as int) =~= chars@);
    r.push(cur);
    r
}

/// The rows `text` takes at `width` columns, or nothing when the sum of the rows of its
/// lines does not fit a `u16`.
pub fn wrapped_row_count_checked(text: &str, width: u16) -> (r: Option<u16>)
    ensures
        r is Some <==> rows_sum(split_on(text@, '\n'), width) <= u16::MAX,
        r matches Some(v) ==> v == wrapped_rows(text@, width),
{
    let chars = chars_of(text);
    let lens = piece_lengths(&chars);
    let ghost pieces = split_on(text@, '\n');
    let mut total: u16 = 0;
    let mut k: usize = 0;
    proof {
        assert(pieces.take(0) =~= Seq::<Seq<char>>::empty());
    }
    while k < lens.len()
        invariant
            chars@ == text@,
            pieces == split_on(text@, '\n'),
            lens.len() == pieces.len(),
            forall|j: int| 0 <= j < lens.len() ==> #[trigger] lens[j] == pieces[j].len(),
            k <= lens.len(),
            total == rows_sum(pieces.take(k as int), width),
        decreases lens.len() - k,
    {
        let term = row_count_for_len(lens[k], width);
        assert(pieces.take(k + 1).drop_last() =~= pieces.take(k as int));
        assert(pieces.take(k + 1).last() == pieces[k as int]);
        match total.checked_add(term) {
            Some(t) => {
                total = t;
            },
            None => {
                proof {
                    lemma_rows_sum_prefix(pieces, width, k + 1);
                }
                return None;
            },
        }
        k = k + 1;
    }
    assert(pieces.take(lens.len() as int) =~= pieces);
    if total < 1 {
        Some(1)
    } else {
        Some(total)
    }
}

/// Approximate greedy-wrapped row count for `text` at the given content
/// width. Only used to size panes to their content, so exactness doesn't
/// matter as much as staying in the right ballpark.
pub fn wrapped_row_count(text: &str, width: u16) -> (r: u16)
    requires
        rows_sum(split_on(text@, '\n'), width) <= u16::MAX,
    ensures
        r == wrapped_rows(text@, width),
{
    match wrapped_row_count_checked(text, width) {
        Some(v) => v,
        None => 0,
    }
}

/// Heights of the original and diff panes sized to their content: the wrapped rows of the
/// original and of `diff_len` characters at `content_width` columns, two rows of border each;
/// nothing when a height does not fit a `u16`.
pub fn content_heights(original: &str, diff_len: usize, content_width: u16) -> (r: Option<
    (u16, u16),
>)
    ensures
        r is Some <==> rows_sum(split_on(original@, '\n'), content_width) <= u16::MAX
            && wrapped_rows(original@, content_width) + 2 <= u16::MAX && row_term(
            diff_len as int,
            content_width,
        ) + 2 <= u16::MAX,
        r matches Some((o, d)) ==> o == wrapped_rows(original@, content_width) + 2 && d
            == row_term(diff_len as int, content_width) + 2,
{
    let rows = match wrapped_row_count_checked(original, content_width) {
        Some(v) => v,
        None => {
            return None;
        },
    };
    let diff_rows = row_count_for_len(diff_len, content_width);
    match (rows.checked_add(2), diff_rows.checked_add(2)) {
        (Some(o), Some(d)) => Some((o, d)),
        _ => None,
    }
}

/// `v` clamped to `lo..=hi`, as `Ord::clamp` does (with `lo <= hi`).
pub open spec fn clamp(v: int, lo: int, hi: int) -> int {
    if v < lo {
        lo
    } else if v > hi {
        hi
    } else {
        v
    }
}

/// The smaller of two numbers.
pub open spec fn min(a: int, b: int) -> int {
    if a <= b {
        a
    } else {
        b
    }
}

/// The larger of two numbers.
pub open spec fn max(a: int, b: int) -> int {
    if a >= b {
        a
    } else {
        b
    }
}

/// The least height of the original and diff panes, and of the editor.
pub open spec fn min_pane() -> int {
    3
}

pub open spec fn min_editor() -> int {
    5
}

/// The heights of the original and diff panes before any shrinking: their content heights
/// clamped between the least pane height and their caps.
pub open spec fn capped_heights(orig_h: int, diff_h: int, max_orig: int, max_diff: int) -> (
    int,
    int,
) {
    (
        clamp(orig_h, min_pane(), max(max_orig, min_pane())),
        clamp(diff_h, min_pane(), max(max_diff, min_pane())),
    )
}

/// The rows the editor is owed in a body of `avail` rows: its least height, and at least
/// half of the body, so that it keeps most of the room.
pub open spec fn editor_floor(avail: int) -> int {
    max(min_editor(), avail - avail / 2)
}

/// The heights of the original, diff and editor panes in `avail` rows: the capped heights,
/// the diff pane then the original pane shrunk (never below the least pane height) until
/// the editor gets the rows it is owed, and the editor the rest.
pub open spec fn pane_split(avail: int, orig_h: int, diff_h: int, max_orig: int, max_diff: int) -> (
    int,
    int,
    int,
) {
    let (o, d) = capped_heights(orig_h, diff_h, max_orig, max_diff);
    let need = editor_floor(avail);
    let (o2, d2) = if o + d + need > avail {
        let over = o + d + need - avail;
        let ds = min(over, d - min_pane());
        let os = min(over - ds, o - min_pane());
        (o - os, d - ds)
    } else {
        (o, d)
    };
    (o2, d2, if o2 + d2 > avail {
        0
    } else {
        avail - o2 - d2
    })
}

/// What every split of the body keeps: each pane has at least its least height and at most
/// its cap, the three fill the body when it has room for the two panes, the editor keeps
/// its least height when the body has room for all three, and the editor always keeps most
/// of the room (at least half the body) when the body has room for that beside the two
/// panes' least heights.
pub proof fn law_pane_split(avail: int, orig_h: int, diff_h: int, max_orig: int, max_diff: int)
    requires
        avail >= 0,
    ensures
        ({
            let (o, d, e) = pane_split(avail, orig_h, diff_h, max_orig, max_diff);
            &&& min_pane() <= o <= max(max_orig, min_pane())
            &&& min_pane() <= d <= max(max_diff, min_pane())
            &&& e >= 0
            &&& avail >= 2 * min_pane() ==> o + d + e == avail
            &&& avail >= 2 * min_pane() + min_editor() ==> e >= min_editor()
            &&& avail >= 4 * min_pane() ==> 2 * e >= avail
        }),
{
}

/// Splits a body of `avail` rows into the original, diff and editor panes: the first two
/// sized to their content (`orig_h`, `diff_h`) but capped at `max_orig` and `max_diff`, and
/// shrunk so that the editor keeps most of the room. Nothing when the panes' least sum does
/// not fit a `u16`.
#[verifier::rlimit(40)]
pub fn pane_heights(avail: u16, orig_h: u16, diff_h: u16, max_orig: u16, max_diff: u16) -> (r:
    Option<(u16, u16, u16)>)
    ensures
        ({
            let (o, d) = capped_heights(orig_h as int, diff_h as int, max_orig as int, max_diff as int);
            r is Some <==> o + d + min_editor() <= u16::MAX
        }),
        r matches Some((o, d, e)) ==> (o as int, d as int, e as int) == pane_split(
            avail as int,
            orig_h as int,
            diff_h as int,
            max_orig as int,
            max_diff as int,
        ),
{
    let min_pane: u16 = 3;
    let min_editor: u16 = 5;
    let cap_o = if max_orig < min_pane {
        min_pane
    } else {
        max_orig
    };
    let cap_d = if max_diff < min_pane {
        min_pane
    } else {
        max_diff
    };
    let o0 = if orig_h < min_pane {
        min_pane
    } else if orig_h > cap_o {
        cap_o
    } else {
        orig_h
    };
    let d0 = if diff_h < min_pane {
        min_pane
    } else if diff_h > cap_d {
        cap_d
    } else {
        diff_h
    };
    assert((o0 as int, d0 as int) == capped_heights(
        orig_h as int,
        diff_h as int,
        max_orig as int,
        max_diff as int,
    ));
    if o0 as u32 + d0 as u32 + min_editor as u32 > 65535u32 {
        return None;
    }
    let half_up: u16 = avail - avail / 2;
    let need: u16 = if half_up < min_editor {
        min_editor
    } else {
        half_up
    };
    assert(need as int == editor_floor(avail as int));
    let total_min: u32 = o0 as u32 + d0 as u32 + need as u32;
    let mut o = o0;
    let mut d = d0;
    if total_min > avail as u32 {
        let overflow: u32 = total_min - avail as u32;
        let room_d: u32 = (d0 - min_pane) as u32;
        let diff_shrink: u32 = if overflow < room_d {
            overflow
        } else {
            room_d
        };
        let rest: u32 = overflow - diff_shrink;
        let room_o: u32 = (o0 - min_pane) as u32;
        let orig_shrink: u32 = if rest < room_o {
            rest
        } else {
            room_o
        };
        d = d0 - diff_shrink as u16;
        o = o0 - orig_shrink as u16;
        assert(o as int == o0 - min(overflow - min(overflow as int, d0 - 3), o0 - 3));
        assert(d as int == d0 - min(overflow as int, d0 - 3));
    }
    let edit_h = avail.saturating_sub(o + d);
    Some((o, d, edit_h))
}

/// A rectangle of the terminal: its top-left corner and size.
#[derive(Clone, Copy, Debug, PartialEq, Eq)]
pub struct Area {
    pub x: u16,
    pub y: u16,
    pub width: u16,
    pub height: u16,
}

/// A `width` by `height` rectangle centred in `area`, shrunk to fit it.
pub open spec fn centered(width: u16, height: u16, area: Area) -> (int, int, int, int) {
    let w = min(width as int, area.width as int);
    let h = min(height as int, area.height as int);
    (area.x + (area.width - w) / 2, area.y + (area.height - h) / 2, w, h)
}

/// A `width` by `height` rectangle centred in `area` and shrunk to fit it; nothing when its
/// corner would lie beyond the largest coordinate.
pub fn centered_rect(width: u16, height: u16, area: Area) -> (r: Option<Area>)
    ensures
        ({
            let (x, y, w, h) = centered(width, height, area);
            &&& r is Some <==> x <= u16::MAX && y <= u16::MAX
            &&& r matches Some(a) ==> (a.x as int, a.y as int, a.width as int, a.height as int)
                == (x, y, w, h)
        }),
        r matches Some(a) ==> area.x <= a.x && a.x + a.width <= area.x + area.width && area.y
            <= a.y && a.y + a.height <= area.y + area.height,
{
    let w = if width < area.width {
        width
    } else {
        area.width
    };
    let h = if height < area.height {
        height
    } else {
        area.height
    };
    let dx = (area.width - w) / 2;
    let dy = (area.height - h) / 2;
    match (area.x.checked_add(dx), area.y.checked_add(dy)) {
        (Some(x), Some(y)) => Some(Area { x, y, width: w, height: h }),
        _ => None,
    }
}

} // verus!

verus! {

/// The cells of a progress bar of `width` cells (at least one): the filled ones, the share
/// rounded to `rounded` cells (none when there is no total) but no more than the bar, and the
/// rest.
pub open spec fn progress_split(rounded: int, total: int, width: int) -> (int, int) {
    let w = max(width, 1);
    let filled = if total == 0 {
        0
    } else {
        min(rounded, w)
    };
    (filled, w - filled)
}

/// The filled and the empty cells of the progress bar, from the share already rounded to a
/// number of cells.
pub fn progress_runs(rounded: usize, total: usize, width: u16) -> (r: (usize, usize))
    ensures
        (r.0 as int, r.1 as int) == progress_split(rounded as int, total as int, width as int),
        r.0 + r.1 == max(width as int, 1),
{
    let w: usize = if width < 1 {
        1
    } else {
        width as usize
    };
    let filled: usize = if total == 0 {
        0
    } else if rounded < w {
        rounded
    } else {
        w
    };
    (filled, w - filled)
}

} // verus!

verus! {

/// How the panes give way: while the body has room, each pane gets its content height
/// clamped between the least pane height and its cap; when it has not, the diff pane shrinks
/// first, the original pane only once the diff pane is at its least height, and they shrink
/// just until the editor gets the rows it is owed.
pub proof fn law_pane_split_order(
    avail: int,
    orig_h: int,
    diff_h: int,
    max_orig: int,
    max_diff: int,
)
    requires
        avail >= 0,
    ensures
        ({
            let (o, d, e) = pane_split(avail, orig_h, diff_h, max_orig, max_diff);
            let co = clamp(orig_h, min_pane(), max(max_orig, min_pane()));
            let cd = clamp(diff_h, min_pane(), max(max_diff, min_pane()));
            &&& co + cd + editor_floor(avail) <= avail ==> o == co && d == cd && e == avail - co - cd
            &&& o <= co && d <= cd
            &&& o < co ==> d == min_pane()
            &&& (o < co || d < cd) ==> (e == editor_floor(avail) || (o == min_pane() && d
                == min_pane()))
            &&& min_pane() <= orig_h <= max_orig ==> co == orig_h
            &&& min_pane() <= diff_h <= max_diff ==> cd == diff_h
        }),
{
}

/// The row count is the least number of rows of `width` columns (a width below 1 counting as
/// one) that hold `len` characters, and one row for no character.
pub proof fn law_rows_for_len(len: int, width: int)
    requires
        len >= 0,
    ensures
        len == 0 ==> rows_for_len(len, width) == 1,
        len > 0 ==> ({
            let w = max(width, 1);
            let r = rows_for_len(len, width);
            &&& r >= 1
            &&& r * w >= len
            &&& (r - 1) * w < len
        }),
{
    if len > 0 {
        let w = max(width, 1);
        let r = rows_for_len(len, width);
        assert(r == (len + w - 1) / w);
        assert(r * w >= len && (r - 1) * w < len && r >= 1) by (nonlinear_arith)
            requires
                r == (len + w - 1) / w,
                w >= 1,
                len > 0,
        ;
    }
}

/// The popup is centred: the space left of it is half of the space it leaves, rounded down,
/// so the right side gets the same or one more column (and likewise above and below).
pub proof fn law_centered(width: u16, height: u16, area: Area)
    ensures
        ({
            let (x, y, w, h) = centered(width, height, area);
            let left = x - area.x;
            let right = area.x + area.width - (x + w);
            let top = y - area.y;
            let bottom = area.y + area.height - (y + h);
            &&& w == min(width as int, area.width as int)
            &&& h == min(height as int, area.height as int)
            &&& 0 <= left <= right <= left + 1
            &&& 0 <= top <= bottom <= top + 1
        }),
{
}

} // verus!

verus! {

proof fn lemma_rows_sum_concat(p: Seq<Seq<char>>, q: Seq<Seq<char>>, width: u16)
    ensures
        rows_sum(p + q, width) == rows_sum(p, width) + rows_sum(q, width),
    decreases q.len(),
{
    if q.len() == 0 {
        assert(p + q =~= p);
    } else {
        lemma_rows_sum_concat(p, q.drop_last(), width);
        assert((p + q).drop_last() =~= p + q.drop_last());
        assert((p + q).last() == q.last());
    }
}

/// Each line of a text is wrapped on its own: the rows of two texts joined by a line ending
/// are the rows of each, and a text without line ending takes the rows of its characters.
pub proof fn law_rows_per_line(a: Seq<char>, b: Seq<char>, width: u16)
    ensures
        rows_sum(split_on(a + seq!['\n'] + b, '\n'), width) == rows_sum(split_on(a, '\n'), width)
            + rows_sum(split_on(b, '\n'), width),
        crate::text::lacks(a, '\n') ==> rows_sum(split_on(a, '\n'), width) == row_term(
            a.len() as int,
            width,
        ),
{
    crate::text::lemma_split_on_concat(a, '\n', b);
    lemma_rows_sum_concat(split_on(a, '\n'), split_on(b, '\n'), width);
    if crate::text::lacks(a, '\n') {
        crate::text::lemma_split_on_no_sep(a, '\n');
        assert(seq![a].drop_last() =~= Seq::<Seq<char>>::empty());
        assert(seq![a].last() == a);
        assert(rows_sum(Seq::<Seq<char>>::empty(), width) == 0);
        assert(rows_sum(seq![a], width) == rows_sum(seq![a].drop_last(), width) + row_term(
            a.len() as int,
            width,
        ));
    }
}

} // verus!
