use deslop::app::{editor_lines, editor_text, preview_document, Action, App, Key, Mode};

fn ctrl(c: char) -> Key {
    Key { press: true, ctrl: true, ch: Some(c) }
}

fn plain(c: char) -> Key {
    Key { press: true, ctrl: false, ch: Some(c) }
}

fn session(chunks: &[&str]) -> App {
    App::new(chunks.iter().map(|s| s.to_string()).collect())
}

fn load(s: &str) -> Action {
    Action::Load(s.to_string())
}

#[test]
fn new_session_starts_on_first_chunk() {
    let app = session(&["a", "b"]);
    assert_eq!(app.chunk_count(), 2);
    assert_eq!(app.idx(), 0);
    assert_eq!(app.mode(), Mode::Chunk);
    assert!(!app.confirm_quit());
    assert_eq!(app.current_chunk(), "a");
    assert_eq!(app.load_chunk_editor(), load(""));
}

#[test]
fn empty_session_can_be_made() {
    let app = App::new(Vec::new());
    assert_eq!(app.chunk_count(), 0);
    assert_eq!(app.idx(), 0);
}

#[test]
fn typing_goes_to_the_editor() {
    let mut app = session(&["a"]);
    assert_eq!(app.handle_key(plain('x'), ""), Action::Edit);
    assert_eq!(app.handle_key(Key { press: true, ctrl: false, ch: None }, ""), Action::Edit);
    assert_eq!(app.handle_key(ctrl('z'), ""), Action::Edit);
}

#[test]
fn releases_are_ignored() {
    let mut app = session(&["a", "b"]);
    let release = Key { press: false, ctrl: true, ch: Some('s') };
    assert_eq!(app.handle_key(release, "mine"), Action::Ignore);
    assert_eq!(app.idx(), 0);
}

#[test]
fn commit_moves_to_next_chunk() {
    let mut app = session(&["a", "b"]);
    assert_eq!(app.handle_key(ctrl('s'), "mine"), load(""));
    assert_eq!(app.idx(), 1);
    assert_eq!(app.current_chunk(), "b");
}

#[test]
fn commit_then_back_restores_committed_text() {
    let mut app = session(&["a", "b", "c"]);
    assert_eq!(app.handle_key(ctrl('s'), "first"), load(""));
    assert_eq!(app.handle_key(ctrl('p'), "half of second"), load("first"));
    assert_eq!(app.idx(), 0);
    assert_eq!(app.handle_key(ctrl('s'), "first again"), load("half of second"));
}

#[test]
fn back_on_first_chunk_does_nothing() {
    let mut app = session(&["a", "b"]);
    assert_eq!(app.handle_key(ctrl('p'), "x"), Action::Ignore);
    assert_eq!(app.idx(), 0);
    assert_eq!(app.load_chunk_editor(), load(""));
}

#[test]
fn last_commit_opens_preview() {
    let mut app = session(&["a", "b"]);
    app.handle_key(ctrl('s'), "one");
    assert_eq!(app.handle_key(ctrl('s'), "two"), load("one\n\ntwo"));
    assert_eq!(app.mode(), Mode::Preview);
}

#[test]
fn empty_commit_drops_paragraph() {
    let mut app = session(&["a", "b", "c"]);
    app.handle_key(ctrl('s'), "one");
    app.handle_key(ctrl('s'), "  ");
    assert_eq!(app.handle_key(ctrl('s'), "three"), load("one\n\nthree"));
}

#[test]
fn keep_original_commits_the_chunk() {
    let mut app = session(&["a\nb", "c"]);
    assert_eq!(app.handle_key(ctrl('k'), "ignored"), load(""));
    assert_eq!(app.handle_key(ctrl('s'), "mine"), load("a\nb\n\nmine"));
}

#[test]
fn keep_original_normalises_line_endings() {
    let mut app = session(&["a\r\nb"]);
    assert_eq!(app.handle_key(ctrl('k'), ""), load("a\nb"));
}

#[test]
fn copy_original_loads_the_chunk() {
    let mut app = session(&["orig text", "b"]);
    assert_eq!(app.handle_key(ctrl('o'), "draft"), load("orig text"));
    assert_eq!(app.idx(), 0);
    assert_eq!(app.mode(), Mode::Chunk);
}

#[test]
fn preview_ignores_keep_and_copy() {
    let mut app = session(&["a"]);
    app.handle_key(ctrl('s'), "one");
    assert_eq!(app.handle_key(ctrl('k'), "doc"), Action::Ignore);
    assert_eq!(app.handle_key(ctrl('o'), "doc"), Action::Ignore);
    assert_eq!(app.mode(), Mode::Preview);
}

#[test]
fn back_from_preview_discards_preview_edits() {
    let mut app = session(&["a", "b"]);
    app.handle_key(ctrl('s'), "one");
    app.handle_key(ctrl('s'), "two");
    assert_eq!(app.handle_key(ctrl('p'), "edited document"), load("two"));
    assert_eq!(app.mode(), Mode::Chunk);
    assert_eq!(app.idx(), 1);
    assert_eq!(app.handle_key(ctrl('s'), "two"), load("one\n\ntwo"));
}

#[test]
fn save_from_preview_ends_with_newline() {
    let mut app = session(&["a"]);
    app.handle_key(ctrl('s'), "one");
    assert_eq!(app.handle_key(ctrl('s'), "final doc"), Action::Save("final doc\n".to_string()));
    let mut app = session(&["a"]);
    app.handle_key(ctrl('s'), "one");
    assert_eq!(app.handle_key(ctrl('s'), "final\n"), Action::Save("final\n".to_string()));
}

#[test]
fn quit_asks_for_confirmation() {
    let mut app = session(&["a"]);
    assert_eq!(app.handle_key(ctrl('q'), ""), Action::Ignore);
    assert!(app.confirm_quit());
    assert_eq!(app.handle_key(plain('y'), ""), Action::Quit);
    let mut app = session(&["a"]);
    app.handle_key(ctrl('q'), "");
    assert_eq!(app.handle_key(plain('Y'), ""), Action::Quit);
}

#[test]
fn other_key_cancels_quit() {
    let mut app = session(&["a", "b"]);
    app.handle_key(ctrl('q'), "");
    assert_eq!(app.handle_key(ctrl('s'), "x"), Action::Ignore);
    assert!(!app.confirm_quit());
    assert_eq!(app.idx(), 0);
    assert_eq!(app.handle_key(ctrl('s'), "x"), load(""));
}

#[test]
fn editor_holds_lines_of_content() {
    assert_eq!(editor_lines(""), Vec::<String>::new());
    assert_eq!(editor_lines("a\r\nb\n"), vec!["a", "b"]);
    assert_eq!(editor_text("a\r\nb\n"), "a\nb");
    assert_eq!(editor_text(""), "");
}

#[test]
fn preview_skips_blank_drafts() {
    let drafts: Vec<String> = ["x", "", " \n ", "y"].iter().map(|s| s.to_string()).collect();
    assert_eq!(preview_document(&drafts), "x\n\ny");
    assert_eq!(preview_document(&Vec::new()), "");
}

#[test]
fn save_needs_every_chunk_committed() {
    // back and forth, then keep, then the preview saves only after all three were committed
    let mut app = session(&["a", "b", "c"]);
    let mut committed = [false; 3];
    let keys = [
        (ctrl('s'), "one"),
        (ctrl('p'), ""),
        (ctrl('s'), "one"),
        (ctrl('k'), ""),
        (ctrl('p'), ""),
        (ctrl('s'), "b"),
        (ctrl('s'), "three"),
        (ctrl('s'), "doc"),
    ];
    let mut saved = false;
    for (key, text) in keys {
        let before = app.idx();
        let was_chunk = app.mode() == Mode::Chunk;
        let action = app.handle_key(key, text);
        if was_chunk && (key.ch == Some('s') || key.ch == Some('k')) {
            committed[before] = true;
        }
        if let Action::Save(_) = action {
            assert!(committed.iter().all(|c| *c));
            saved = true;
        }
        assert!(app.idx() < app.chunk_count());
    }
    assert!(saved);
}

#[test]
fn commit_and_next_then_go_back() {
    let mut app = session(&["a", "b", "c"]);
    assert_eq!(app.commit_and_next("first".to_string()), load(""));
    assert_eq!(app.idx(), 1);
    assert_eq!(app.go_back("second draft".to_string()), load("first"));
    assert_eq!(app.idx(), 0);
    assert_eq!(app.mode(), Mode::Chunk);
    assert_eq!(app.commit_and_next("first".to_string()), load("second draft"));
    assert_eq!(app.go_back("x".to_string()), load("first"));
    assert_eq!(app.go_back("y".to_string()), Action::Ignore);
    assert_eq!(app.chunk_count(), 3);
}
