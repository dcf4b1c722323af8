use vstd::prelude::*;
use vstd::string::StringExecFns;

use crate::text::{chars_of, is_blank, is_blank_text};

verus! {

/// Whether `a` and `b` hold the same characters.
pub fn same_text(a: &str, b: &str) -> (r: bool)
    ensures
        r == (a@ == b@),
{
    let x = chars_of(a);
    let y = chars_of(b);
    if x.len() != y.len() {
        return false;
    }
    let mut i: usize = 0;
    while i < x.len()
        invariant
            x@ == a@,
            y@ == b@,
            x.len() == y.len(),
            i <= x.len(),
            forall|k: int| 0 <= k < i ==> x@[k] == y@[k],
        decreases x.len() - i,
    {
        if x[i] != y[i] {
            return false;
        }
        i = i + 1;
    }
    proof {
        assert(x@ =~= y@);
    }
    true
}

/// The form for adding a note.
#[derive(Debug)]
pub struct AddNoteState {
    pub new_note_title: String,
    pub is_loading: bool,
    pub is_popup_open: bool,
    pub error: String,
}

impl Default for AddNoteState {
    fn default() -> (r: Self)
        ensures
            r.new_note_title@.len() == 0,
            !r.is_loading,
            !r.is_popup_open,
            r.error@.len() == 0,
    {
        AddNoteState {
            new_note_title: String::new(),
            is_loading: false,
            is_popup_open: false,
            error: String::new(),
        }
    }
}

/// A note of a folder.
#[derive(Debug)]
pub struct Note {
    pub id: String,
    pub title: String,
    pub content: String,
    pub folder_id: String,
}

/// The items of an opened folder.
#[derive(Debug)]
pub struct FolderItemsState {
    pub notes: Vec<Note>,
    pub selected_note: Option<String>,
    pub new_folder_name: String,
    pub is_loading: bool,
    pub is_expanded: bool,
    pub error: String,
    pub error_message: String,
}

impl Default for FolderItemsState {
    fn default() -> (r: Self)
        ensures
            r.notes@.len() == 0,
            r.selected_note is None,
            r.new_folder_name@.len() == 0,
            !r.is_loading,
            !r.is_expanded,
            r.error@.len() == 0,
            r.error_message@.len() == 0,
    {
        FolderItemsState {
            notes: Vec::new(),
            selected_note: None,
            new_folder_name: String::new(),
            is_loading: false,
            is_expanded: false,
            error: String::new(),
            error_message: String::new(),
        }
    }
}

/// The form for naming a folder.
#[derive(Debug)]
pub struct FolderState {
    pub folder_name: String,
    pub is_loading: bool,
    pub show_error: bool,
    pub error_message: String,
}

impl Default for FolderState {
    fn default() -> (r: Self)
        ensures
            r.folder_name@.len() == 0,
            !r.is_loading,
            !r.show_error,
            r.error_message@.len() == 0,
    {
        FolderState {
            folder_name: String::new(),
            is_loading: false,
            show_error: false,
            error_message: String::new(),
        }
    }
}

impl FolderState {
    /// Takes a new folder name and clears any error shown.
    pub fn set_folder_name(&mut self, folder_name: String)
        ensures
            final(self).folder_name@ == folder_name@,
            !final(self).show_error,
            final(self).error_message@.len() == 0,
            final(self).is_loading == old(self).is_loading,
    {
        self.folder_name = folder_name;
        self.show_error = false;
        self.error_message = String::new();
    }

    /// Refuses a folder name that is blank.
    pub fn validate_folder_name(&self) -> (r: Result<(), String>)
        ensures
            r is Err <==> is_blank_text(self.folder_name@),
    {
        if is_blank(self.folder_name.as_str()) {
            Err(String::from_str("Folder name cannot be empty"))
        } else {
            Ok(())
        }
    }
}

/// The form for naming a note.
#[derive(Debug)]
pub struct NoteState {
    pub note_name: String,
    pub is_loading: bool,
    pub show_error: bool,
    pub error_message: String,
}

impl Default for NoteState {
    fn default() -> (r: Self)
        ensures
            r.note_name@.len() == 0,
            !r.is_loading,
            !r.show_error,
            r.error_message@.len() == 0,
    {
        NoteState {
            note_name: String::new(),
            is_loading: false,
            show_error: false,
            error_message: String::new(),
        }
    }
}

impl NoteState {
    /// Takes a new note name and clears any error shown.
    pub fn set_note_name(&mut self, note_name: String)
        ensures
            final(self).note_name@ == note_name@,
            !final(self).show_error,
            final(self).error_message@.len() == 0,
            final(self).is_loading == old(self).is_loading,
    {
        self.note_name = note_name;
        self.show_error = false;
        self.error_message = String::new();
    }

    /// Refuses a note name that is blank.
    pub fn validate_note_name(&self) -> (r: Result<(), String>)
        ensures
            r is Err <==> is_blank_text(self.note_name@),
    {
        if is_blank(self.note_name.as_str()) {
            Err(String::from_str("Note name cannot be empty"))
        } else {
            Ok(())
        }
    }
}

/// The markdown editor and its preview.
#[derive(Debug)]
pub struct MarkdownState {
    pub is_preview_open: bool,
    pub is_editor_open: bool,
    pub title: String,
    pub content: String,
    pub word_count: usize,
    pub char_count: usize,
    pub is_full_screen: bool,
}

impl Default for MarkdownState {
    fn default() -> (r: Self)
        ensures
            r.is_preview_open,
            r.is_editor_open,
            r.title@.len() == 0,
            r.content@.len() == 0,
            r.word_count == 0,
            r.char_count == 0,
            !r.is_full_screen,
    {
        MarkdownState {
            is_preview_open: true,
            is_editor_open: true,
            title: String::new(),
            content: String::new(),
            word_count: 0,
            char_count: 0,
            is_full_screen: false,
        }
    }
}

/// The panes that a view mode opens, editor first: `split` opens both,
/// `editor` and `preview` one each; any other mode is unknown.
pub open spec fn view_mode_panes(mode: Seq<char>) -> Option<(bool, bool)> {
    if mode == "split"@ {
        Some((true, true))
    } else if mode == "editor"@ {
        Some((true, false))
    } else if mode == "preview"@ {
        Some((false, true))
    } else {
        None
    }
}

impl MarkdownState {
    /// Opens the panes of `mode` and returns which are open, editor first;
    /// an unknown mode changes nothing and is refused.
    pub fn toggle_view_mode(&mut self, mode: &str) -> (r: Result<(bool, bool), String>)
        ensures
            view_mode_panes(mode@) is None ==> r is Err && *final(self) == *old(self),
            view_mode_panes(mode@) matches Some(p) ==> {
                &&& r == Ok::<(bool, bool), String>(p)
                &&& final(self).is_editor_open == p.0
                &&& final(self).is_preview_open == p.1
                &&& final(self).content == old(self).content
                &&& final(self).title == old(self).title
                &&& final(self).is_full_screen == old(self).is_full_screen
            },
    {
        if same_text(mode, "split") {
            self.is_editor_open = true;
            self.is_preview_open = true;
        } else if same_text(mode, "editor") {
            self.is_editor_open = true;
            self.is_preview_open = false;
        } else if same_text(mode, "preview") {
            self.is_editor_open = false;
            self.is_preview_open = true;
        } else {
            return Err(String::from_str("Invalid view mode"));
        }
        Ok((self.is_editor_open, self.is_preview_open))
    }
}

/// The history of the command prompt.
#[derive(Debug)]
pub struct ShellState {
    pub history: Vec<String>,
}

impl Default for ShellState {
    fn default() -> (r: Self)
        ensures
            r.history@.len() == 0,
    {
        ShellState { history: Vec::new() }
    }
}

/// A counter that steps up or down.
#[derive(Debug)]
pub struct Counter {
    pub count: i32,
}

/// The counter after `method`: one more for `add`, one less for `subtract`,
/// unchanged for anything else.
pub open spec fn counter_step(count: int, method: Seq<char>) -> int {
    if method == "add"@ {
        count + 1
    } else if method == "subtract"@ {
        count - 1
    } else {
        count
    }
}

impl Counter {
    /// Steps the counter as `method` says and returns its new value.
    pub fn calculate(&mut self, method: &str) -> (r: i32)
        requires
            i32::MIN <= counter_step(old(self).count as int, method@) <= i32::MAX,
        ensures
            r as int == counter_step(old(self).count as int, method@),
            final(self).count == r,
    {
        if same_text(method, "add") {
            self.count = self.count + 1;
        } else if same_text(method, "subtract") {
            self.count = self.count - 1;
        }
        self.count
    }
}

/// A colour theme for code blocks.
#[derive(Debug, Clone, Copy)]
pub struct Theme {
    pub name: &'static str,
    pub value: &'static str,
    pub display: &'static str,
}

/// The code themes on offer, each as its name and its label.
pub open spec fn themes_on_offer() -> Seq<(Seq<char>, Seq<char>)> {
    seq![
        ("nord"@, "Nord"@),
        ("atomDark"@, "Atom Dark"@),
        ("darcula"@, "Darcula"@),
        ("gruvboxDark"@, "Gruvbox Dark"@),
        ("materialDark"@, "Material Dark"@),
        ("materialLight"@, "Material Light"@),
        ("solarizedlight"@, "Solarized Light"@),
        ("tomorrow"@, "Tomorrow"@),
        ("vscDarkPlus"@, "VS Code Dark+"@),
    ]
}

/// The code themes on offer, in the order of `themes_on_offer`; a theme's
/// value is its name.
pub fn list_of_themes() -> (r: Vec<Theme>)
    ensures
        r@.len() == themes_on_offer().len(),
        forall|i: int| 0 <= i < r@.len() ==> {
            &&& (#[trigger] r@[i]).name@ == themes_on_offer()[i].0
            &&& r@[i].value@ == themes_on_offer()[i].0
            &&& r@[i].display@ == themes_on_offer()[i].1
        },
{
    let entries: [(&'static str, &'static str); 9] = [
        ("nord", "Nord"),
        ("atomDark", "Atom Dark"),
        ("darcula", "Darcula"),
        ("gruvboxDark", "Gruvbox Dark"),
        ("materialDark", "Material Dark"),
        ("materialLight", "Material Light"),
        ("solarizedlight", "Solarized Light"),
        ("tomorrow", "Tomorrow"),
        ("vscDarkPlus", "VS Code Dark+"),
    ];
    assert(forall|i: int| 0 <= i < 9 ==> (#[trigger] entries@[i]).0@ == themes_on_offer()[i].0
        && entries@[i].1@ == themes_on_offer()[i].1);
    let mut themes: Vec<Theme> = Vec::new();
    for i in 0..9
        invariant
            themes@.len() == i,
            forall|j: int| 0 <= j < 9 ==> (#[trigger] entries@[j]).0@ == themes_on_offer()[j].0
                && entries@[j].1@ == themes_on_offer()[j].1,
            forall|k: int| 0 <= k < i ==> {
                &&& (#[trigger] themes@[k]).name@ == themes_on_offer()[k].0
                &&& themes@[k].value@ == themes_on_offer()[k].0
                &&& themes@[k].display@ == themes_on_offer()[k].1
            },
    {
        let (name, display) = entries[i];
        themes.push(Theme { name, value: name, display });
    }
    themes
}

/// The built-in chat models, by name.
pub open spec fn models_on_offer() -> Seq<Seq<char>> {
    seq![
        "codellama"@,
        "deepseek-coder"@,
        "deepseek-llm"@,
        "deepseek-r1"@,
        "deepseek-v2.5"@,
        "gpt-oss:120b-cloud"@,
        "gpt-oss"@,
        "gemma3"@,
        "llama3.1"@,
        "llama3.2"@,
        "llama-pro"@,
        "mistral"@,
        "mistral:7b-instruct"@,
        "qwen3"@,
        "qwen2"@,
        "qwen2.5-coder"@,
        "llava"@,
        "gemma2"@,
        "qwen3-vl"@,
        "qwen2.5"@,
        "opencoder"@,
        "phi3"@,
        "qwen2:cloud"@,
        "tinyllama"@,
    ]
}

/// The built-in chat models, in the order of `models_on_offer`.
pub fn list_of_models() -> (r: Vec<String>)
    ensures
        r@.len() == models_on_offer().len(),
        forall|i: int| 0 <= i < r@.len() ==> (#[trigger] r@[i])@ == models_on_offer()[i],
{
    let names: [&'static str; 24] = [
        "codellama",
        "deepseek-coder",
        "deepseek-llm",
        "deepseek-r1",
        "deepseek-v2.5",
        "gpt-oss:120b-cloud",
        "gpt-oss",
        "gemma3",
        "llama3.1",
        "llama3.2",
        "llama-pro",
        "mistral",
        "mistral:7b-instruct",
        "qwen3",
        "qwen2",
        "qwen2.5-coder",
        "llava",
        "gemma2",
        "qwen3-vl",
        "qwen2.5",
        "opencoder",
        "phi3",
        "qwen2:cloud",
        "tinyllama",
    ];
    assert(forall|i: int| 0 <= i < 24 ==> (#[trigger] names@[i])@ == models_on_offer()[i]);
    let mut models: Vec<String> = Vec::new();
    for i in 0..24
        invariant
            models@.len() == i,
            forall|j: int| 0 <= j < 24 ==> (#[trigger] names@[j])@ == models_on_offer()[j],
            forall|k: int| 0 <= k < i ==> (#[trigger] models@[k])@ == models_on_offer()[k],
    {
        models.push(String::from_str(names[i]));
    }
    models
}

/// Whether `name` is one of the `names`.
pub fn contains_name(names: &Vec<String>, name: &str) -> (r: bool)
    ensures
        r == exists|i: int| 0 <= i < names@.len() && (#[trigger] names@[i])@ == name@,
{
    let mut i: usize = 0;
    while i < names.len()
        invariant
            i <= names@.len(),
            forall|k: int| 0 <= k < i ==> (#[trigger] names@[k])@ != name@,
        decreases names.len() - i,
    {
        if same_text(names[i].as_str(), name) {
            return true;
        }
        i = i + 1;
    }
    false
}

/// Whether `model` may be chosen: it is a built-in model or one of the
/// custom models the user added.
pub fn is_model_available(model: &str, custom_models: &Vec<String>) -> (r: bool)
    ensures
        r == (models_on_offer().contains(model@) || exists|i: int|
            0 <= i < custom_models@.len() && (#[trigger] custom_models@[i])@ == model@),
{
    let built_in = list_of_models();
    let found = contains_name(&built_in, model);
    proof {
        if found {
            let i = choose|i: int| 0 <= i < built_in@.len() && (#[trigger] built_in@[i])@ == model@;
            assert(models_on_offer()[i] == model@);
        }
        if models_on_offer().contains(model@) {
            let i = choose|i: int| 0 <= i < models_on_offer().len() && models_on_offer()[i] == model@;
            assert(built_in@[i]@ == model@);
        }
    }
    found || contains_name(custom_models, model)
}

} // verus!
