use fenris::state::{
    contains_name, is_model_available, list_of_models, list_of_themes, same_text, AddNoteState, Counter, FolderItemsState, FolderState,
    MarkdownState, NoteState, ShellState,
};
use fenris::text::{bytes_less, is_blank};

#[test]
fn view_modes_open_their_panes() {
    let mut s = MarkdownState::default();
    assert_eq!(s.toggle_view_mode("editor"), Ok((true, false)));
    assert!(s.is_editor_open && !s.is_preview_open);
    assert_eq!(s.toggle_view_mode("preview"), Ok((false, true)));
    assert_eq!(s.toggle_view_mode("split"), Ok((true, true)));
}

#[test]
fn unknown_view_mode_is_refused_and_changes_nothing() {
    let mut s = MarkdownState::default();
    s.toggle_view_mode("editor").unwrap();
    assert_eq!(s.toggle_view_mode("Split"), Err("Invalid view mode".to_string()));
    assert!(s.is_editor_open && !s.is_preview_open);
}

#[test]
fn markdown_defaults() {
    let s = MarkdownState::default();
    assert!(s.is_preview_open && s.is_editor_open && !s.is_full_screen);
    assert_eq!(s.word_count, 0);
    assert_eq!(s.char_count, 0);
}

#[test]
fn folder_name_is_set_and_validated() {
    let mut s = FolderState::default();
    s.show_error = true;
    s.error_message = "old".to_string();
    s.set_folder_name("Work".to_string());
    assert_eq!(s.folder_name, "Work");
    assert!(!s.show_error);
    assert_eq!(s.error_message, "");
    assert_eq!(s.validate_folder_name(), Ok(()));
    s.set_folder_name(" \t ".to_string());
    assert_eq!(s.validate_folder_name(), Err("Folder name cannot be empty".to_string()));
}

#[test]
fn note_name_is_set_and_validated() {
    let mut s = NoteState::default();
    assert_eq!(s.validate_note_name(), Err("Note name cannot be empty".to_string()));
    s.set_note_name("Todo".to_string());
    assert_eq!(s.note_name, "Todo");
    assert_eq!(s.validate_note_name(), Ok(()));
}

#[test]
fn counter_steps() {
    let mut c = Counter { count: 5 };
    assert_eq!(c.calculate("add"), 6);
    assert_eq!(c.calculate("subtract"), 5);
    assert_eq!(c.calculate("subtract"), 4);
    assert_eq!(c.calculate("other"), 4);
    assert_eq!(c.count, 4);
}

#[test]
fn themes_on_offer() {
    let t = list_of_themes();
    assert_eq!(t.len(), 9);
    assert_eq!(t[0].name, "nord");
    assert_eq!(t[8].display, "VS Code Dark+");
    assert!(t.iter().all(|x| x.name == x.value));
}

#[test]
fn other_defaults_are_empty() {
    let a = AddNoteState::default();
    assert!(a.new_note_title.is_empty() && !a.is_loading && !a.is_popup_open && a.error.is_empty());
    let f = FolderItemsState::default();
    assert!(f.notes.is_empty() && f.selected_note.is_none() && !f.is_expanded);
    assert!(ShellState::default().history.is_empty());
}

#[test]
fn text_helpers() {
    assert!(same_text("abc", "abc"));
    assert!(!same_text("abc", "abd"));
    assert!(!same_text("abc", "ab"));
    assert!(is_blank(""));
    assert!(is_blank(" \u{3000}\n"));
    assert!(!is_blank(" a "));
    assert!(bytes_less(b"ab", b"b"));
    assert!(bytes_less(b"a", b"ab"));
    assert!(!bytes_less(b"ab", b"ab"));
    assert!(!bytes_less(b"b", b"ab"));
}

#[test]
fn built_in_models() {
    let m = list_of_models();
    assert_eq!(m.len(), 24);
    assert_eq!(m[0], "codellama");
    assert_eq!(m[23], "tinyllama");
}

#[test]
fn model_availability() {
    let custom = vec!["my-model".to_string()];
    assert!(is_model_available("mistral", &custom));
    assert!(is_model_available("my-model", &custom));
    assert!(!is_model_available("unknown", &custom));
    assert!(!is_model_available("my-model", &Vec::new()));
    assert!(contains_name(&custom, "my-model"));
    assert!(!contains_name(&custom, "my"));
}
