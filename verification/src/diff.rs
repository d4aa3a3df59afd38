//! The word-level diff between a chunk's original and the user's draft.

use vstd::prelude::*;

use similar::{ChangeTag, TextDiff};

use crate::text::{chars_of, is_whitespace, is_ws, string_of_range, views};

verus! {

/// What a change of a diff does to a word.
#[derive(Clone, Copy, Debug, PartialEq, Eq, Structural)]
pub enum ChangeKind {
    /// The word is in both texts.
    Equal,
    /// The word is only in the original.
    Delete,
    /// The word is only in the draft.
    Insert,
}

/// The pieces of `s` between its whitespace characters, empty pieces included.
pub open spec fn ws_split(s: Seq<char>) -> Seq<Seq<char>>
    decreases s.len(),
{
    if s.len() == 0 {
        seq![Seq::empty()]
    } else {
        let rest = ws_split(s.drop_last());
        if is_ws(s.last()) {
            rest.push(Seq::empty())
        } else {
            rest.update(rest.len() - 1, rest.last().push(s.last()))
        }
    }
}

/// The pieces of `p` that are not empty, in order.
pub open spec fn nonempty_parts(p: Seq<Seq<char>>) -> Seq<Seq<char>>
    decreases p.len(),
{
    if p.len() == 0 {
        p
    } else if p.last().len() == 0 {
        nonempty_parts(p.drop_last())
    } else {
        nonempty_parts(p.drop_last()).push(p.last())
    }
}

/// The words of `s`, as `str::split_whitespace` yields them: its maximal runs of
/// non-whitespace characters.
pub open spec fn words_of(s: Seq<char>) -> Seq<Seq<char>> {
    nonempty_parts(ws_split(s))
}

/// The words of `text`, as `str::split_whitespace` yields them.
pub fn words(text: &str) -> (r: Vec<String>)
    ensures
        views(r@) == words_of(text@),
{
    let chars = chars_of(text);
    let mut r: Vec<String> = Vec::new();
    let mut start: usize = 0;
    let mut i: usize = 0;
    let n = chars.len();
    proof {
        assert(chars@.take(0) =~= Seq::<char>::empty());
    }
    while i < n
        invariant
            n == chars.len(),
            start <= i <= n,
            ws_split(chars@.take(i as int)).len() >= 1,
            ws_split(chars@.take(i as int)).last() == chars@.subrange(start as int, i as int),
            views(r@) == nonempty_parts(ws_split(chars@.take(i as int)).drop_last()),
        decreases n - i,
    {
        let ghost prev = ws_split(chars@.take(i as int));
        assert(chars@.take(i + 1).drop_last() =~= chars@.take(i as int));
        assert(chars@.take(i + 1).last() == chars@[i as int]);
        if is_whitespace(chars[i]) {
            let ghost before = views(r@);
            if i > start {
                let w = string_of_range(&chars, start, i);
                r.push(w);
                assert(views(r@) =~= before.push(prev.last()));
            }
            assert(prev.push(Seq::empty()).drop_last() =~= prev);
            start = i + 1;
            assert(chars@.subrange(start as int, start as int) =~= Seq::<char>::empty());
        } else {
            let ghost next = prev.update(prev.len() - 1, prev.last().push(chars@[i as int]));
            assert(next.drop_last() =~= prev.drop_last());
            assert(chars@.subrange(start as int, i + 1) =~= prev.last().push(chars@[i as int]));
        }
        i = i + 1;
    }
    assert(chars@.take(n as int) =~= chars@);
    let ghost before = views(r@);
    if n > start {
        let w = string_of_range(&chars, start, n);
        r.push(w);
        assert(views(r@) =~= before.push(chars@.subrange(start as int, n as int)));
    }
    r
}

/// A list of changes, its texts taken as character sequences.
pub open spec fn change_views(v: Seq<(ChangeKind, String)>) -> Seq<(ChangeKind, Seq<char>)> {
    v.map_values(|c: (ChangeKind, String)| (c.0, c.1@))
}

/// The texts of the changes that stand in the original (equal and deleted), in order.
pub open spec fn old_side(cs: Seq<(ChangeKind, Seq<char>)>) -> Seq<Seq<char>>
    decreases cs.len(),
{
    if cs.len() == 0 {
        Seq::empty()
    } else if cs.last().0 == ChangeKind::Insert {
        old_side(cs.drop_last())
    } else {
        old_side(cs.drop_last()).push(cs.last().1)
    }
}

/// The texts of the changes that stand in the draft (equal and inserted), in order.
pub open spec fn new_side(cs: Seq<(ChangeKind, Seq<char>)>) -> Seq<Seq<char>>
    decreases cs.len(),
{
    if cs.len() == 0 {
        Seq::empty()
    } else if cs.last().0 == ChangeKind::Delete {
        new_side(cs.drop_last())
    } else {
        new_side(cs.drop_last()).push(cs.last().1)
    }
}

/// The changes, in order, that `similar`'s default text diff (Myers' algorithm, no
/// deadline) reports between two lists of words.
pub uninterp spec fn word_changes(old: Seq<Seq<char>>, new: Seq<Seq<char>>) -> Seq<
    (ChangeKind, Seq<char>),
>;

/// Calls `similar::TextDiff::from_slices` on the two word lists and lists all its changes
/// (`iter_all_changes`), each as its tag and value. Trusted: the result is the named diff of
/// the two lists; the equal and deleted values, in order, are the old words, and the equal
/// and inserted values, in order, are the new words; two equal lists give equal changes
/// only (the algorithm first takes their whole common prefix as equal).
#[verifier::external_body]
fn diff_slices(old: &Vec<String>, new: &Vec<String>) -> (r: Vec<(ChangeKind, String)>)
    ensures
        change_views(r@) == word_changes(views(old@), views(new@)),
        old_side(change_views(r@)) == views(old@),
        new_side(change_views(r@)) == views(new@),
        views(old@) == views(new@) ==> forall|i: int|
            0 <= i < r.len() ==> (#[trigger] r[i]).0 == ChangeKind::Equal,
{
    let o: Vec<&str> = old.iter().map(|s| s.as_str()).collect();
    let n: Vec<&str> = new.iter().map(|s| s.as_str()).collect();
    let diff = TextDiff::from_slices(&o, &n);
    diff.iter_all_changes().map(|c| {
        let kind = match c.tag() {
            ChangeTag::Equal => ChangeKind::Equal,
            ChangeTag::Delete => ChangeKind::Delete,
            ChangeTag::Insert => ChangeKind::Insert,
        };
        (kind, c.value().to_string())
    }).collect()
}

/// A change as the diff pane shows it: its word followed by a space.
pub open spec fn shown(c: (ChangeKind, Seq<char>)) -> (ChangeKind, Seq<char>) {
    (c.0, c.1.push(' '))
}

/// The diff pane's spans for a list of changes: each word followed by a space, with its kind.
pub fn spans_of_changes(changes: &Vec<(ChangeKind, String)>) -> (r: Vec<(ChangeKind, String)>)
    ensures
        change_views(r@) == change_views(changes@).map_values(|c: (ChangeKind, Seq<char>)| shown(c)),
{
    let mut r: Vec<(ChangeKind, String)> = Vec::new();
    let mut i: usize = 0;
    while i < changes.len()
        invariant
            i <= changes.len(),
            r.len() == i,
            forall|j: int|
                0 <= j < i ==> (#[trigger] r[j]).0 == changes[j].0 && r[j].1@ == changes[j].1@.push(
                    ' ',
                ),
        decreases changes.len() - i,
    {
        let mut text = changes[i].1.clone();
        proof {
            reveal_strlit(" ");
        }
        text.append(" ");
        assert(text@ =~= changes[i as int].1@.push(' '));
        r.push((changes[i].0, text));
        i = i + 1;
    }
    assert(change_views(r@) =~= change_views(changes@).map_values(
        |c: (ChangeKind, Seq<char>)| shown(c),
    ));
    r
}

/// Word-level diff between `original` and `draft`, as the diff pane shows it: the changes
/// between their words, each word followed by a space.
pub fn diff_words(original: &str, draft: &str) -> (r: Vec<(ChangeKind, String)>)
    ensures
        change_views(r@) == word_changes(words_of(original@), words_of(draft@)).map_values(
            |c: (ChangeKind, Seq<char>)| shown(c),
        ),
        old_side(change_views(r@)) == words_of(original@).map_values(|w: Seq<char>| w.push(' ')),
        new_side(change_views(r@)) == words_of(draft@).map_values(|w: Seq<char>| w.push(' ')),
        words_of(draft@).len() == 0 ==> forall|i: int|
            0 <= i < r.len() ==> (#[trigger] r[i]).0 == ChangeKind::Delete,
        words_of(original@).len() == 0 ==> forall|i: int|
            0 <= i < r.len() ==> (#[trigger] r[i]).0 == ChangeKind::Insert,
        words_of(original@) == words_of(draft@) ==> forall|i: int|
            0 <= i < r.len() ==> (#[trigger] r[i]).0 == ChangeKind::Equal,
{
    let old = words(original);
    let new = words(draft);
    let changes = diff_slices(&old, &new);
    let r = spans_of_changes(&changes);
    proof {
        lemma_sides_shown(change_views(changes@));
        let cv = change_views(r@);
        lemma_empty_side(cv);
        assert forall|i: int| 0 <= i < r.len() implies #[trigger] r[i].0 == cv[i].0 by {}
        assert forall|i: int| 0 <= i < r.len() implies #[trigger] r[i].0 == changes[i].0 by {}
    }
    r
}

/// With no word on one side, every change comes from the other: none is kept as equal.
proof fn lemma_empty_side(cs: Seq<(ChangeKind, Seq<char>)>)
    ensures
        new_side(cs).len() == 0 ==> forall|i: int|
            0 <= i < cs.len() ==> (#[trigger] cs[i]).0 == ChangeKind::Delete,
        old_side(cs).len() == 0 ==> forall|i: int|
            0 <= i < cs.len() ==> (#[trigger] cs[i]).0 == ChangeKind::Insert,
    decreases cs.len(),
{
    if cs.len() > 0 {
        lemma_empty_side(cs.drop_last());
        assert forall|i: int| 0 <= i < cs.len() - 1 implies #[trigger] cs[i] == cs.drop_last()[i] by {}
    }
}

/// The number of characters of the spans' texts together.
pub open spec fn spans_len(cs: Seq<(ChangeKind, Seq<char>)>) -> int
    decreases cs.len(),
{
    if cs.len() == 0 {
        0
    } else {
        spans_len(cs.drop_last()) + cs.last().1.len()
    }
}

proof fn lemma_spans_len_prefix(cs: Seq<(ChangeKind, Seq<char>)>, k: int)
    requires
        0 <= k <= cs.len(),
    ensures
        0 <= spans_len(cs.take(k)) <= spans_len(cs),
    decreases cs.len(),
{
    if k == cs.len() {
        assert(cs.take(k) =~= cs);
        lemma_spans_len_nonneg(cs);
    } else {
        lemma_spans_len_prefix(cs.drop_last(), k);
        assert(cs.drop_last().take(k) =~= cs.take(k));
    }
}

proof fn lemma_spans_len_nonneg(cs: Seq<(ChangeKind, Seq<char>)>)
    ensures
        spans_len(cs) >= 0,
    decreases cs.len(),
{
    if cs.len() > 0 {
        lemma_spans_len_nonneg(cs.drop_last());
    }
}

/// How many characters the diff pane shows: the characters of all spans together; nothing
/// when that count does not fit a `usize`.
pub fn diff_text_len(spans: &Vec<(ChangeKind, String)>) -> (r: Option<usize>)
    ensures
        r is Some <==> spans_len(change_views(spans@)) <= usize::MAX,
        r matches Some(n) ==> n == spans_len(change_views(spans@)),
{
    let ghost cv = change_views(spans@);
    let mut total: usize = 0;
    let mut i: usize = 0;
    proof {
        assert(cv.take(0) =~= Seq::<(ChangeKind, Seq<char>)>::empty());
    }
    while i < spans.len()
        invariant
            cv == change_views(spans@),
            i <= spans.len(),
            total == spans_len(cv.take(i as int)),
        decreases spans.len() - i,
    {
        let n = spans[i].1.as_str().unicode_len();
        assert(cv.take(i + 1).drop_last() =~= cv.take(i as int));
        assert(cv.take(i + 1).last() == cv[i as int]);
        match total.checked_add(n) {
            Some(t) => {
                total = t;
            },
            None => {
                proof {
                    lemma_spans_len_prefix(cv, i + 1);
                }
                return None;
            },
        }
        i = i + 1;
    }
    assert(cv.take(spans.len() as int) =~= cv);
    Some(total)
}

proof fn lemma_sides_shown(cs: Seq<(ChangeKind, Seq<char>)>)
    ensures
        old_side(cs.map_values(|c: (ChangeKind, Seq<char>)| shown(c))) == old_side(cs).map_values(
            |w: Seq<char>| w.push(' '),
        ),
        new_side(cs.map_values(|c: (ChangeKind, Seq<char>)| shown(c))) == new_side(cs).map_values(
            |w: Seq<char>| w.push(' '),
        ),
    decreases cs.len(),
{
    let f = |c: (ChangeKind, Seq<char>)| shown(c);
    let g = |w: Seq<char>| w.push(' ');
    if cs.len() > 0 {
        lemma_sides_shown(cs.drop_last());
        assert(cs.map_values(f).drop_last() =~= cs.drop_last().map_values(f));
        assert(cs.map_values(f).last() == shown(cs.last()));
        assert(old_side(cs.drop_last()).push(cs.last().1).map_values(g) =~= old_side(
            cs.drop_last(),
        ).map_values(g).push(cs.last().1.push(' ')));
        assert(new_side(cs.drop_last()).push(cs.last().1).map_values(g) =~= new_side(
            cs.drop_last(),
        ).map_values(g).push(cs.last().1.push(' ')));
    } else {
        assert(old_side(cs).map_values(g) =~= Seq::<Seq<char>>::empty());
        assert(new_side(cs).map_values(g) =~= Seq::<Seq<char>>::empty());
    }
}

} // verus!

verus! {

proof fn lemma_ws_split_concat(a: Seq<char>, x: char, b: Seq<char>)
    requires
        is_ws(x),
    ensures
        ws_split(a + seq![x] + b) == ws_split(a) + ws_split(b),
    decreases b.len(),
{
    if b.len() == 0 {
        assert(a + seq![x] + b =~= (a + seq![x]));
        assert((a + seq![x]).drop_last() =~= a);
        assert(ws_split(a) + ws_split(b) =~= ws_split(a).push(Seq::empty()));
    } else {
        let b2 = b.drop_last();
        lemma_ws_split_concat(a, x, b2);
        assert((a + seq![x] + b).drop_last() =~= a + seq![x] + b2);
        assert((a + seq![x] + b).last() == b.last());
        let p = ws_split(a);
        let q = ws_split(b2);
        lemma_ws_split_len(b2);
        if is_ws(b.last()) {
            assert((p + q).push(Seq::empty()) =~= p + q.push(Seq::empty()));
        } else {
            assert((p + q).update((p + q).len() - 1, (p + q).last().push(b.last())) =~= p
                + q.update(q.len() - 1, q.last().push(b.last())));
        }
    }
}

proof fn lemma_ws_split_len(s: Seq<char>)
    ensures
        ws_split(s).len() >= 1,
    decreases s.len(),
{
    if s.len() > 0 {
        lemma_ws_split_len(s.drop_last());
    }
}

proof fn lemma_nonempty_parts_concat(p: Seq<Seq<char>>, q: Seq<Seq<char>>)
    ensures
        nonempty_parts(p + q) == nonempty_parts(p) + nonempty_parts(q),
    decreases q.len(),
{
    if q.len() == 0 {
        assert(p + q =~= p);
        assert(nonempty_parts(p) + nonempty_parts(q) =~= nonempty_parts(p));
    } else {
        lemma_nonempty_parts_concat(p, q.drop_last());
        assert((p + q).drop_last() =~= p + q.drop_last());
        assert((p + q).last() == q.last());
        assert((nonempty_parts(p) + nonempty_parts(q.drop_last())).push(q.last()) =~= nonempty_parts(
            p,
        ) + nonempty_parts(q.drop_last()).push(q.last()));
    }
}

/// Words are separated by whitespace, any whitespace: the words of two texts with a
/// whitespace character between them are the words of the first, then those of the second.
pub proof fn law_words_split_at_whitespace(a: Seq<char>, x: char, b: Seq<char>)
    requires
        is_ws(x),
    ensures
        words_of(a + seq![x] + b) == words_of(a) + words_of(b),
{
    lemma_ws_split_concat(a, x, b);
    lemma_nonempty_parts_concat(ws_split(a), ws_split(b));
}

/// A text without whitespace is one word, whatever characters (punctuation included) it
/// holds; the empty text has no word.
pub proof fn law_word_without_whitespace(s: Seq<char>)
    requires
        forall|i: int| 0 <= i < s.len() ==> !is_ws(#[trigger] s[i]),
    ensures
        s.len() > 0 ==> words_of(s) == seq![s],
        s.len() == 0 ==> words_of(s) == Seq::<Seq<char>>::empty(),
    decreases s.len(),
{
    lemma_ws_split_whole(s);
    if s.len() > 0 {
        assert(seq![s].drop_last() =~= Seq::<Seq<char>>::empty());
        assert(seq![s].last() == s);
        assert(nonempty_parts(Seq::<Seq<char>>::empty()) == Seq::<Seq<char>>::empty());
        assert(Seq::<Seq<char>>::empty().push(s) =~= seq![s]);
    } else {
        assert(seq![s].drop_last() =~= Seq::<Seq<char>>::empty());
        assert(nonempty_parts(Seq::<Seq<char>>::empty()) == Seq::<Seq<char>>::empty());
    }
}

proof fn lemma_ws_split_whole(s: Seq<char>)
    requires
        forall|i: int| 0 <= i < s.len() ==> !is_ws(#[trigger] s[i]),
    ensures
        ws_split(s) == seq![s],
    decreases s.len(),
{
    if s.len() > 0 {
        let d = s.drop_last();
        assert forall|i: int| 0 <= i < d.len() implies !is_ws(#[trigger] d[i]) by {
            assert(d[i] == s[i]);
        }
        lemma_ws_split_whole(d);
        assert(!is_ws(s[s.len() - 1]));
        assert(d.push(s.last()) =~= s);
        assert(seq![d].update(0, d.push(s.last())) =~= seq![s]);
    } else {
        assert(s =~= Seq::<char>::empty());
    }
}

} // verus!
