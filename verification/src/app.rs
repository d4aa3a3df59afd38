//! The rewrite session: one chunk at a time the user writes a version of their own, then
//! edits the whole document in a preview and saves it. Here stand the session's state and
//! its decisions; the terminal, the editor widget and the file system stay with the caller,
//! which reads keys, carries out the returned action and hands back the editor's text.

use vstd::prelude::*;

use crate::text::{
    ending_in_newline, is_blank, join, join_lines, join_strings, lines_of, text_lines, views,
    with_trailing_newline, all_whitespace, chars_of,
};

verus! {

/// Which view the session shows.
#[derive(Clone, Copy, Debug, PartialEq, Eq, Structural)]
pub enum Mode {
    /// One chunk: its original, the diff and the editor.
    Chunk,
    /// The whole document, for last minute edits.
    Preview,
}

/// A key press as the session sees it.
#[derive(Clone, Copy, Debug, PartialEq, Eq)]
pub struct Key {
    /// A press, not a release or a repeat.
    pub press: bool,
    /// Ctrl was held.
    pub ctrl: bool,
    /// The character of the key, for character keys.
    pub ch: Option<char>,
}

/// What the caller does after a key.
#[derive(Debug, PartialEq, Eq)]
pub enum Action {
    /// Nothing.
    Ignore,
    /// Hand the key to the editor.
    Edit,
    /// Replace the editor's content with this text.
    Load(String),
    /// Write this text to the output file and end the session, saved.
    Save(String),
    /// End the session without saving.
    Quit,
}

/// An action, its texts taken as character sequences.
pub enum ActionView {
    Ignore,
    Edit,
    Load(Seq<char>),
    Save(Seq<char>),
    Quit,
}

impl View for Action {
    type V = ActionView;

    open spec fn view(&self) -> ActionView {
        match self {
            Action::Ignore => ActionView::Ignore,
            Action::Edit => ActionView::Edit,
            Action::Load(t) => ActionView::Load(t@),
            Action::Save(t) => ActionView::Save(t@),
            Action::Quit => ActionView::Quit,
        }
    }
}

/// The session's state: the chunks, the user's draft of each, the chunk shown, the view,
/// and whether a quit is waiting for confirmation.
pub struct AppView {
    pub chunks: Seq<Seq<char>>,
    pub drafts: Seq<Seq<char>>,
    pub idx: nat,
    pub mode: Mode,
    pub confirm_quit: bool,
}

/// A rewrite session.
pub struct App {
    chunks: Vec<String>,
    drafts: Vec<String>,
    idx: usize,
    mode: Mode,
    confirm_quit: bool,
}

impl View for App {
    type V = AppView;

    closed spec fn view(&self) -> AppView {
        AppView {
            chunks: views(self.chunks@),
            drafts: views(self.drafts@),
            idx: self.idx as nat,
            mode: self.mode,
            confirm_quit: self.confirm_quit,
        }
    }
}

/// A session state that keeps one draft per chunk, shows an existing chunk (or the first
/// place when there is none), and previews only from the last chunk.
pub open spec fn wf(s: AppView) -> bool {
    &&& s.drafts.len() == s.chunks.len()
    &&& s.chunks.len() > 0 ==> s.idx < s.chunks.len()
    &&& s.chunks.len() == 0 ==> s.idx == 0
    &&& s.mode == Mode::Preview ==> s.chunks.len() > 0 && s.idx == s.chunks.len() - 1
}

/// The text an editor holds once loaded with `content`: its lines joined with `\n`.
pub open spec fn editor_text_of(content: Seq<char>) -> Seq<char> {
    join(text_lines(content), seq!['\n'])
}

/// The drafts that are not blank, in order.
pub open spec fn kept_drafts(ds: Seq<Seq<char>>) -> Seq<Seq<char>>
    decreases ds.len(),
{
    if ds.len() == 0 {
        ds
    } else if is_blank(ds.last()) {
        kept_drafts(ds.drop_last())
    } else {
        kept_drafts(ds.drop_last()).push(ds.last())
    }
}

/// The document the preview shows: the drafts that are not blank, separated by a blank line.
pub open spec fn preview_text(ds: Seq<Seq<char>>) -> Seq<char> {
    join(kept_drafts(ds), seq!['\n', '\n'])
}

/// `s` with other drafts, chunk and view.
pub open spec fn with_place(s: AppView, drafts: Seq<Seq<char>>, idx: nat, mode: Mode) -> AppView {
    AppView { chunks: s.chunks, drafts, idx, mode, confirm_quit: s.confirm_quit }
}

/// Committing `text` as the draft of the shown chunk: go to the next chunk, or to the
/// preview after the last one.
pub open spec fn commit_step(s: AppView, text: Seq<char>) -> (AppView, ActionView) {
    let drafts = s.drafts.update(s.idx as int, text);
    if s.idx + 1 < s.chunks.len() {
        (with_place(s, drafts, s.idx + 1, Mode::Chunk), ActionView::Load(drafts[s.idx + 1 as int]))
    } else {
        (with_place(s, drafts, s.idx, Mode::Preview), ActionView::Load(preview_text(drafts)))
    }
}

/// Going back: from the preview to the last chunk, its preview edits dropped; from a chunk to
/// the one before, keeping the editor's text as this chunk's draft; nothing on the first.
pub open spec fn back_step(s: AppView, text: Seq<char>) -> (AppView, ActionView) {
    match s.mode {
        Mode::Preview => {
            let last = (s.chunks.len() - 1) as nat;
            (with_place(s, s.drafts, last, Mode::Chunk), ActionView::Load(s.drafts[last as int]))
        },
        Mode::Chunk => if s.idx > 0 {
            let drafts = s.drafts.update(s.idx as int, text);
            let prev = (s.idx - 1) as nat;
            (with_place(s, drafts, prev, Mode::Chunk), ActionView::Load(drafts[prev as int]))
        } else {
            (s, ActionView::Ignore)
        },
    }
}

/// `s` with the quit confirmation set to `c`.
pub open spec fn with_confirm(s: AppView, c: bool) -> AppView {
    AppView { chunks: s.chunks, drafts: s.drafts, idx: s.idx, mode: s.mode, confirm_quit: c }
}

/// The session's answer to a key while the editor holds `text`: the next state and what the
/// caller does.
pub open spec fn handle(s: AppView, key: Key, text: Seq<char>) -> (AppView, ActionView) {
    if !key.press {
        (s, ActionView::Ignore)
    } else if s.confirm_quit {
        if key.ch == Some('y') || key.ch == Some('Y') {
            (s, ActionView::Quit)
        } else {
            (with_confirm(s, false), ActionView::Ignore)
        }
    } else if !key.ctrl {
        (s, ActionView::Edit)
    } else if key.ch == Some('q') {
        (with_confirm(s, true), ActionView::Ignore)
    } else if key.ch == Some('s') {
        match s.mode {
            Mode::Chunk => commit_step(s, text),
            Mode::Preview => (s, ActionView::Save(ending_in_newline(text))),
        }
    } else if key.ch == Some('k') {
        match s.mode {
            Mode::Chunk => commit_step(s, editor_text_of(s.chunks[s.idx as int])),
            Mode::Preview => (s, ActionView::Ignore),
        }
    } else if key.ch == Some('o') {
        match s.mode {
            Mode::Chunk => (s, ActionView::Load(s.chunks[s.idx as int])),
            Mode::Preview => (s, ActionView::Ignore),
        }
    } else if key.ch == Some('p') {
        back_step(s, text)
    } else {
        (s, ActionView::Edit)
    }
}

/// The lines an editor holds once loaded with `content` (an empty content gives no line).
pub fn editor_lines(content: &str) -> (r: Vec<String>)
    ensures
        views(r@) == text_lines(content@),
{
    lines_of(content)
}

/// The text of an editor loaded with `content`.
pub fn editor_text(content: &str) -> (r: String)
    ensures
        r@ == editor_text_of(content@),
{
    let lines = editor_lines(content);
    join_lines(&lines)
}

/// The document the preview starts from: the drafts that are not blank, joined with a blank
/// line between each two.
pub fn preview_document(drafts: &Vec<String>) -> (r: String)
    ensures
        r@ == preview_text(views(drafts@)),
{
    let ghost ds = views(drafts@);
    let mut kept: Vec<String> = Vec::new();
    let mut i: usize = 0;
    proof {
        assert(ds.take(0) =~= Seq::<Seq<char>>::empty());
    }
    while i < drafts.len()
        invariant
            ds == views(drafts@),
            i <= drafts.len(),
            views(kept@) == kept_drafts(ds.take(i as int)),
        decreases drafts.len() - i,
    {
        let cs = chars_of(drafts[i].as_str());
        assert(ds.take(i + 1).drop_last() =~= ds.take(i as int));
        assert(ds.take(i + 1).last() == ds[i as int]);
        let ghost before = views(kept@);
        if !all_whitespace(&cs) {
            kept.push(drafts[i].clone());
            assert(views(kept@) =~= before.push(ds[i as int]));
        }
        i = i + 1;
    }
    assert(ds.take(drafts.len() as int) =~= ds);
    let sep = "\n\n";
    proof {
        reveal_strlit("\n\n");
        assert(sep@ =~= seq!['\n', '\n']);
    }
    join_strings(&kept, sep)
}

impl App {
    /// Every session is well formed.
    #[verifier::type_invariant]
    spec fn well_formed(self) -> bool {
        wf(self@)
    }

    /// A session over `chunks`, on the first chunk, with every draft empty.
    pub fn new(chunks: Vec<String>) -> (r: App)
        ensures
            r@.chunks == views(chunks@),
            r@.drafts == Seq::new(chunks.len() as nat, |i: int| Seq::<char>::empty()),
            r@.idx == 0,
            r@.mode == Mode::Chunk,
            !r@.confirm_quit,
            wf(r@),
    {
        let mut drafts: Vec<String> = Vec::new();
        let mut i: usize = 0;
        while i < chunks.len()
            invariant
                i <= chunks.len(),
                drafts.len() == i,
                forall|j: int| 0 <= j < i ==> (#[trigger] drafts[j])@ == Seq::<char>::empty(),
            decreases chunks.len() - i,
        {
            drafts.push(String::new());
            i = i + 1;
        }
        let r = App { chunks, drafts, idx: 0, mode: Mode::Chunk, confirm_quit: false };
        assert(r@.drafts =~= Seq::new(r.chunks.len() as nat, |i: int| Seq::<char>::empty()));
        r
    }

    /// How many chunks the session has (and, as for every session, that it is well formed).
    pub fn chunk_count(&self) -> (r: usize)
        ensures
            r == self@.chunks.len(),
            wf(self@),
    {
        proof {
            use_type_invariant(self);
        }
        self.chunks.len()
    }

    /// The index of the chunk shown.
    pub fn idx(&self) -> (r: usize)
        ensures
            r == self@.idx,
    {
        self.idx
    }

    /// The view shown.
    pub fn mode(&self) -> (r: Mode)
        ensures
            r == self@.mode,
    {
        self.mode
    }

    /// Whether a quit waits for confirmation.
    pub fn confirm_quit(&self) -> (r: bool)
        ensures
            r == self@.confirm_quit,
    {
        self.confirm_quit
    }

    /// The original text of the chunk shown.
    pub fn current_chunk(&self) -> (r: &String)
        requires
            self@.chunks.len() > 0,
        ensures
            r@ == self@.chunks[self@.idx as int],
    {
        proof {
            use_type_invariant(self);
        }
        &self.chunks[self.idx]
    }

    /// Loading the editor with the draft of the chunk shown, as the session starts.
    pub fn load_chunk_editor(&self) -> (r: Action)
        requires
            self@.chunks.len() > 0,
        ensures
            r@ == ActionView::Load(self@.drafts[self@.idx as int]),
    {
        proof {
            use_type_invariant(self);
        }
        Action::Load(self.drafts[self.idx].clone())
    }

    proof fn lemma_lens(&self)
        ensures
            self.chunks.len() == self@.chunks.len(),
            self.drafts.len() == self@.drafts.len(),
            self.idx == self@.idx,
            forall|i: int| 0 <= i < self.drafts.len() ==> (#[trigger] self.drafts@[i])@
                == self@.drafts[i],
            forall|i: int| 0 <= i < self.chunks.len() ==> (#[trigger] self.chunks@[i])@
                == self@.chunks[i],
    {
    }

    fn set_draft(&mut self, text: String)
        requires
            wf(old(self)@),
            old(self)@.chunks.len() > 0,
        ensures
            final(self)@ == with_place(
                old(self)@,
                old(self)@.drafts.update(old(self)@.idx as int, text@),
                old(self)@.idx,
                old(self)@.mode,
            ),
    {
        let mut held = App {
            chunks: Vec::new(),
            drafts: Vec::new(),
            idx: 0,
            mode: Mode::Chunk,
            confirm_quit: false,
        };
        std::mem::swap(&mut held, self);
        proof {
            held.lemma_lens();
        }
        let App { chunks, mut drafts, idx, mode, confirm_quit } = held;
        let ghost before = views(drafts@);
        drafts.set(idx, text);
        assert(views(drafts@) =~= before.update(idx as int, text@));
        *self = App { chunks, drafts, idx, mode, confirm_quit };
    }

    /// Commits `text` as the draft of the chunk shown, and goes to the next chunk, or to the
    /// preview after the last one; the session stays well formed and its chunks unchanged.
    pub fn commit_and_next(&mut self, text: String) -> (r: Action)
        requires
            old(self)@.chunks.len() > 0,
            old(self)@.mode == Mode::Chunk,
        ensures
            (final(self)@, r@) == commit_step(old(self)@, text@),
            wf(old(self)@),
            wf(final(self)@),
            final(self)@.chunks == old(self)@.chunks,
    {
        proof {
            use_type_invariant(&*self);
        }
        self.set_draft(text);
        proof {
            self.lemma_lens();
        }
        if self.idx + 1 < self.chunks.len() {
            self.idx = self.idx + 1;
            Action::Load(self.drafts[self.idx].clone())
        } else {
            self.mode = Mode::Preview;
            Action::Load(preview_document(&self.drafts))
        }
    }

    /// Goes back: from the preview to the last chunk, from a chunk to the one before keeping
    /// `text` as this chunk's draft, or nowhere from the first; the session stays well formed
    /// and its chunks unchanged.
    pub fn go_back(&mut self, text: String) -> (r: Action)
        requires
            old(self)@.chunks.len() > 0,
        ensures
            (final(self)@, r@) == back_step(old(self)@, text@),
            wf(old(self)@),
            wf(final(self)@),
            final(self)@.chunks == old(self)@.chunks,
    {
        proof {
            use_type_invariant(&*self);
            self.lemma_lens();
        }
        match self.mode {
            Mode::Preview => {
                self.mode = Mode::Chunk;
                self.idx = self.chunks.len() - 1;
                Action::Load(self.drafts[self.idx].clone())
            },
            Mode::Chunk => {
                if self.idx > 0 {
                    self.set_draft(text);
                    proof {
                        self.lemma_lens();
                    }
                    self.idx = self.idx - 1;
                    Action::Load(self.drafts[self.idx].clone())
                } else {
                    Action::Ignore
                }
            },
        }
    }

    /// The session's answer to `key` while the editor holds `editor_text`.
    pub fn handle_key(&mut self, key: Key, editor_text: &str) -> (r: Action)
        requires
            old(self)@.chunks.len() > 0,
        ensures
            (final(self)@, r@) == handle(old(self)@, key, editor_text@),
            wf(old(self)@),
            wf(final(self)@),
            final(self)@.chunks == old(self)@.chunks,
    {
        proof {
            use_type_invariant(&*self);
        }
        if !key.press {
            return Action::Ignore;
        }
        if self.confirm_quit {
            if key.ch == Some('y') || key.ch == Some('Y') {
                return Action::Quit;
            }
            self.confirm_quit = false;
            return Action::Ignore;
        }
        if !key.ctrl {
            return Action::Edit;
        }
        if key.ch == Some('q') {
            self.confirm_quit = true;
            Action::Ignore
        } else if key.ch == Some('s') {
            match self.mode {
                Mode::Chunk => self.commit_and_next(editor_text.to_owned()),
                Mode::Preview => Action::Save(with_trailing_newline(editor_text)),
            }
        } else if key.ch == Some('k') {
            match self.mode {
                Mode::Chunk => {
                    let kept = crate::app::editor_text(self.chunks[self.idx].as_str());
                    self.commit_and_next(kept)
                },
                Mode::Preview => Action::Ignore,
            }
        } else if key.ch == Some('o') {
            match self.mode {
                Mode::Chunk => Action::Load(self.chunks[self.idx].clone()),
                Mode::Preview => Action::Ignore,
            }
        } else if key.ch == Some('p') {
            self.go_back(editor_text.to_owned())
        } else {
            Action::Edit
        }
    }
}

} // verus!

verus! {

/// The key Ctrl with `c`, pressed.
pub open spec fn ctrl_key(c: char) -> Key {
    Key { press: true, ctrl: true, ch: Some(c) }
}

/// Committing a chunk and going back returns to it with the committed text in the editor;
/// the next chunk keeps what its editor held.
pub proof fn law_commit_then_back(s: AppView, t: Seq<char>, t2: Seq<char>)
    requires
        wf(s),
        s.mode == Mode::Chunk,
        !s.confirm_quit,
        s.idx + 1 < s.chunks.len(),
    ensures
        ({
            let (s1, a1) = handle(s, ctrl_key('s'), t);
            let (s2, a2) = handle(s1, ctrl_key('p'), t2);
            &&& s1.idx == s.idx + 1
            &&& a1 == ActionView::Load(s.drafts[s.idx + 1 as int])
            &&& s2.idx == s.idx
            &&& s2.mode == Mode::Chunk
            &&& s2.drafts == s.drafts.update(s.idx as int, t).update(s.idx + 1 as int, t2)
            &&& a2 == ActionView::Load(t)
        }),
{
    let (s1, a1) = handle(s, ctrl_key('s'), t);
    let d1 = s.drafts.update(s.idx as int, t);
    assert(s1.drafts == d1);
    let d2 = d1.update(s.idx + 1 as int, t2);
    assert(d2[s.idx as int] == t);
}

/// Going back from the preview drops the preview's edits: the last chunk is shown again with
/// its draft, and no draft changes.
pub proof fn law_back_from_preview(s: AppView, t: Seq<char>)
    requires
        wf(s),
        s.mode == Mode::Preview,
        !s.confirm_quit,
    ensures
        ({
            let (s1, a) = handle(s, ctrl_key('p'), t);
            &&& s1.mode == Mode::Chunk
            &&& s1.idx == s.chunks.len() - 1
            &&& s1.drafts == s.drafts
            &&& a == ActionView::Load(s.drafts[s.chunks.len() - 1])
        }),
{
}

/// Committing the last chunk opens the preview of the document made of the drafts.
pub proof fn law_last_commit_previews(s: AppView, t: Seq<char>)
    requires
        wf(s),
        s.mode == Mode::Chunk,
        !s.confirm_quit,
        s.chunks.len() > 0,
        s.idx == s.chunks.len() - 1,
    ensures
        ({
            let (s1, a) = handle(s, ctrl_key('s'), t);
            &&& s1.mode == Mode::Preview
            &&& s1.drafts == s.drafts.update(s.idx as int, t)
            &&& a == ActionView::Load(preview_text(s.drafts.update(s.idx as int, t)))
        }),
{
}

/// Keeping the original commits the chunk's own text, as an editor holds it.
pub proof fn law_keep_original(s: AppView, t: Seq<char>)
    requires
        wf(s),
        s.mode == Mode::Chunk,
        !s.confirm_quit,
        s.chunks.len() > 0,
    ensures
        handle(s, ctrl_key('k'), t).0.drafts == s.drafts.update(
            s.idx as int,
            editor_text_of(s.chunks[s.idx as int]),
        ),
{
}

/// Quitting asks first: Ctrl+Q only raises the question; then `y` or `Y` quits, and any
/// other key withdraws the question and does nothing else.
pub proof fn law_quit_asks_first(s: AppView, t: Seq<char>, other: Key)
    requires
        wf(s),
        !s.confirm_quit,
        other.press,
        other.ch != Some('y'),
        other.ch != Some('Y'),
    ensures
        ({
            let (s1, a1) = handle(s, ctrl_key('q'), t);
            &&& s1 == with_confirm(s, true)
            &&& a1 == ActionView::Ignore
            &&& handle(s1, Key { press: true, ctrl: false, ch: Some('y') }, t).1
                == ActionView::Quit
            &&& handle(s1, Key { press: true, ctrl: false, ch: Some('Y') }, t).1
                == ActionView::Quit
            &&& handle(s1, other, t) == (s, ActionView::Ignore)
        }),
{
    assert(with_confirm(with_confirm(s, true), false) == s);
}

/// Only the preview saves, and what it saves ends with a line ending.
pub proof fn law_save_only_from_preview(s: AppView, key: Key, t: Seq<char>)
    requires
        wf(s),
    ensures
        handle(s, key, t).1 matches ActionView::Save(doc) ==> s.mode == Mode::Preview && doc
            == ending_in_newline(t) && doc.len() > 0 && doc.last() == '\n',
{
}

/// A key that is not a press changes nothing.
pub proof fn law_only_presses_count(s: AppView, key: Key, t: Seq<char>)
    requires
        !key.press,
    ensures
        handle(s, key, t) == (s, ActionView::Ignore),
{
}

proof fn lemma_kept_drafts_concat(a: Seq<Seq<char>>, b: Seq<Seq<char>>)
    ensures
        kept_drafts(a + b) == kept_drafts(a) + kept_drafts(b),
    decreases b.len(),
{
    if b.len() == 0 {
        assert(a + b =~= a);
        assert(kept_drafts(a) + kept_drafts(b) =~= kept_drafts(a));
    } else {
        lemma_kept_drafts_concat(a, b.drop_last());
        assert((a + b).drop_last() =~= a + b.drop_last());
        assert((a + b).last() == b.last());
        if !is_blank(b.last()) {
            assert((kept_drafts(a) + kept_drafts(b.drop_last())).push(b.last()) =~= kept_drafts(a)
                + kept_drafts(b.drop_last()).push(b.last()));
        }
    }
}

/// Committing an empty (or blank) draft drops that paragraph from the document: the preview
/// is the one without that chunk.
pub proof fn law_blank_draft_dropped(ds: Seq<Seq<char>>, i: int, d: Seq<char>)
    requires
        0 <= i < ds.len(),
        is_blank(d),
    ensures
        preview_text(ds.update(i, d)) == preview_text(ds.remove(i)),
{
    let a = ds.take(i);
    let b = ds.skip(i + 1);
    assert(ds.update(i, d) =~= a + seq![d] + b);
    assert(ds.remove(i) =~= a + b);
    lemma_kept_drafts_concat(a + seq![d], b);
    lemma_kept_drafts_concat(a, seq![d]);
    lemma_kept_drafts_concat(a, b);
    assert(seq![d].drop_last() =~= Seq::<Seq<char>>::empty());
    assert(seq![d].last() == d);
    assert(kept_drafts(Seq::<Seq<char>>::empty()) == Seq::<Seq<char>>::empty());
    assert(kept_drafts(seq![d]) =~= Seq::<Seq<char>>::empty());
    assert(kept_drafts(a) + Seq::<Seq<char>>::empty() =~= kept_drafts(a));
}

} // verus!

verus! {

/// Every key keeps the session well formed and leaves its chunks as they are.
pub proof fn law_handle_keeps_wf(s: AppView, key: Key, t: Seq<char>)
    requires
        wf(s),
        s.chunks.len() > 0,
    ensures
        wf(handle(s, key, t).0),
        handle(s, key, t).0.chunks == s.chunks,
        handle(s, key, t).0.drafts.len() == s.drafts.len(),
{
}

} // verus!

verus! {

/// The states a session goes through on a sequence of keys, each key with the editor's text
/// when it comes: the first state, then the state after each key.
pub open spec fn trace(s0: AppView, keys: Seq<(Key, Seq<char>)>) -> Seq<AppView>
    decreases keys.len(),
{
    if keys.len() == 0 {
        seq![s0]
    } else {
        let t = trace(s0, keys.drop_last());
        t.push(handle(t.last(), keys.last().0, keys.last().1).0)
    }
}

/// Whether `key` commits the chunk shown in state `s`: Ctrl+S or Ctrl+K on a chunk, with no
/// quit waiting for confirmation.
pub open spec fn commits(s: AppView, key: Key) -> bool {
    &&& key.press
    &&& !s.confirm_quit
    &&& key.ctrl
    &&& s.mode == Mode::Chunk
    &&& (key.ch == Some('s') || key.ch == Some('k'))
}

/// Whether chunk `i` was committed by one of the first `m` keys.
pub open spec fn committed(
    tr: Seq<AppView>,
    keys: Seq<(Key, Seq<char>)>,
    i: int,
    m: int,
) -> bool {
    exists|j: int| 0 <= j < m && tr[j].idx == i && #[trigger] commits(tr[j], keys[j].0)
}

proof fn lemma_trace_step(s0: AppView, keys: Seq<(Key, Seq<char>)>, k: int)
    requires
        0 <= k < keys.len(),
    ensures
        trace(s0, keys).len() == keys.len() + 1,
        trace(s0, keys)[0] == s0,
        trace(s0, keys)[k + 1] == handle(trace(s0, keys)[k], keys[k].0, keys[k].1).0,
    decreases keys.len(),
{
    let pre = keys.drop_last();
    if k < keys.len() - 1 {
        lemma_trace_step(s0, pre, k);
        assert(pre[k] == keys[k]);
    } else if keys.len() > 1 {
        lemma_trace_step(s0, pre, k - 1);
    } else {
        assert(pre.len() == 0);
        assert(trace(s0, pre) == seq![s0]);
    }
}

proof fn lemma_progress(s0: AppView, keys: Seq<(Key, Seq<char>)>, k: int)
    requires
        wf(s0),
        s0.chunks.len() > 0,
        s0.idx == 0,
        s0.mode == Mode::Chunk,
        0 <= k <= keys.len(),
    ensures
        ({
            let tr = trace(s0, keys);
            let n = s0.chunks.len() as int;
            &&& wf(tr[k])
            &&& tr[k].chunks == s0.chunks
            &&& forall|i: int| 0 <= i < tr[k].idx ==> committed(tr, keys, i, k)
            &&& tr[k].mode == Mode::Preview ==> forall|i: int|
                0 <= i < n ==> committed(tr, keys, i, k)
        }),
    decreases k,
{
    let tr = trace(s0, keys);
    let n = s0.chunks.len() as int;
    if keys.len() > 0 {
        lemma_trace_step(s0, keys, 0);
    } else {
        assert(tr == seq![s0]);
    }
    if k > 0 {
        lemma_progress(s0, keys, k - 1);
        lemma_trace_step(s0, keys, k - 1);
        let s = tr[k - 1];
        let key = keys[k - 1].0;
        law_handle_keeps_wf(s, key, keys[k - 1].1);
        assert forall|i: int| committed(tr, keys, i, k - 1) implies committed(tr, keys, i, k) by {
            let j = choose|j: int|
                0 <= j < k - 1 && tr[j].idx == i && #[trigger] commits(tr[j], keys[j].0);
            assert(commits(tr[j], keys[j].0));
        }
        if commits(s, key) {
            assert(commits(tr[k - 1], keys[k - 1].0));
            assert(committed(tr, keys, s.idx as int, k));
        }
    }
}

/// Nothing is saved before every chunk was committed: in any run of keys from a new session,
/// a key that saves comes after a commit of each chunk (Ctrl+S or Ctrl+K while it was shown).
pub proof fn law_save_after_every_commit(s0: AppView, keys: Seq<(Key, Seq<char>)>, m: int)
    requires
        wf(s0),
        s0.chunks.len() > 0,
        s0.idx == 0,
        s0.mode == Mode::Chunk,
        0 <= m < keys.len(),
        handle(trace(s0, keys)[m], keys[m].0, keys[m].1).1 is Save,
    ensures
        forall|i: int| 0 <= i < s0.chunks.len() ==> committed(trace(s0, keys), keys, i, m),
{
    lemma_progress(s0, keys, m);
    law_save_only_from_preview(trace(s0, keys)[m], keys[m].0, keys[m].1);
}

} // verus!

verus! {

/// Committing a chunk and going back (the two steps themselves) returns to it with the
/// committed text loaded, and keeps the next chunk's editor text as its draft.
pub proof fn law_commit_then_go_back(s: AppView, t: Seq<char>, t2: Seq<char>)
    requires
        wf(s),
        s.mode == Mode::Chunk,
        s.idx + 1 < s.chunks.len(),
    ensures
        ({
            let (s1, a1) = commit_step(s, t);
            let (s2, a2) = back_step(s1, t2);
            &&& wf(s1) && wf(s2)
            &&& s2.idx == s.idx
            &&& s2.mode == Mode::Chunk
            &&& s2.chunks == s.chunks
            &&& s2.drafts == s.drafts.update(s.idx as int, t).update(s.idx + 1 as int, t2)
            &&& a1 == ActionView::Load(s.drafts[s.idx + 1 as int])
            &&& a2 == ActionView::Load(t)
        }),
{
    let d1 = s.drafts.update(s.idx as int, t);
    let d2 = d1.update(s.idx + 1 as int, t2);
    assert(d2[s.idx as int] == t);
}

} // verus!

verus! {

proof fn lemma_kept_is_filter(ds: Seq<Seq<char>>)
    ensures
        kept_drafts(ds) == ds.filter(|d: Seq<char>| !is_blank(d)),
    decreases ds.len(),
{
    reveal_with_fuel(Seq::filter, 1);
    if ds.len() > 0 {
        lemma_kept_is_filter(ds.drop_last());
    }
}

/// Every draft that is not blank is in the preview, in order, and nothing else: the preview is
/// exactly the non-blank drafts joined with a blank line between each two.
pub proof fn law_preview_keeps_every_paragraph(ds: Seq<Seq<char>>)
    ensures
        preview_text(ds) == join(ds.filter(|d: Seq<char>| !is_blank(d)), seq!['\n', '\n']),
{
    lemma_kept_is_filter(ds);
}

/// Adding a paragraph that is not blank to the drafts adds it at the end of the preview, after
/// a blank line (or alone when the preview was empty).
pub proof fn law_preview_appends(ds: Seq<Seq<char>>, d: Seq<char>)
    requires
        !is_blank(d),
    ensures
        preview_text(ds.push(d)) == if kept_drafts(ds).len() == 0 {
            d
        } else {
            preview_text(ds) + seq!['\n', '\n'] + d
        },
{
    assert(ds.push(d).drop_last() =~= ds);
    assert(ds.push(d).last() == d);
    let k = kept_drafts(ds);
    if k.len() == 0 {
        assert(k.push(d) =~= seq![d]);
    } else {
        assert(k.push(d).drop_last() =~= k);
    }
}

/// Ctrl+O on a chunk, with no quit waiting, loads the original of the chunk shown and changes
/// nothing else.
pub proof fn law_copy_original(s: AppView, t: Seq<char>)
    requires
        wf(s),
        s.mode == Mode::Chunk,
        !s.confirm_quit,
        s.chunks.len() > 0,
    ensures
        handle(s, ctrl_key('o'), t) == (s, ActionView::Load(s.chunks[s.idx as int])),
{
}

} // verus!
