//! The documents open in the editor: tab order, the active document, unsaved
//! changes and the cached outline of each document.

use vstd::prelude::*;

use crate::outline::{extract_headings, heading_views, spec_extract_headings, Heading, HeadingView};
use crate::std_calls::{
    components, extension, file_name, join, opt_view, parent, path_components, path_extension, path_parent, path_file_name, path_join,
    path_strip_prefix, strip_prefix,
};

verus! {

/// One open document.
pub struct Document {
    path: String,
    /// The editor's current text.
    text: String,
    /// The text last written to (or read from) disk.
    saved_text: String,
    dirty: bool,
    outline: Vec<Heading>,
}

/// A document as a mathematical value.
pub struct DocumentView {
    pub path: Seq<char>,
    pub text: Seq<char>,
    pub saved_text: Seq<char>,
    pub dirty: bool,
    pub outline: Seq<HeadingView>,
}

impl View for Document {
    type V = DocumentView;

    closed spec fn view(&self) -> DocumentView {
        DocumentView {
            path: self.path@,
            text: self.text@,
            saved_text: self.saved_text@,
            dirty: self.dirty,
            outline: heading_views(self.outline@),
        }
    }
}

/// The state of the editor panel: the open documents in tab order, the
/// active one, and whether the preview replaces the editor.
///
/// Documents are keyed by path, and paths compare as std compares them
/// (`Path ==`, component by component): a document keeps the path it was
/// opened with, and any path equal to it finds it.
pub struct EditorPanel {
    docs: Vec<Document>,
    active: Option<String>,
    preview_mode: bool,
}

/// The editor panel as a mathematical value.
pub struct PanelView {
    pub docs: Seq<DocumentView>,
    pub active: Option<Seq<char>>,
    pub preview_mode: bool,
}

/// The views of a list of documents.
pub open spec fn doc_views(v: Seq<Document>) -> Seq<DocumentView> {
    v.map_values(|d: Document| d@)
}

impl View for EditorPanel {
    type V = PanelView;

    closed spec fn view(&self) -> PanelView {
        PanelView {
            docs: doc_views(self.docs@),
            active: opt_view(self.active),
            preview_mode: self.preview_mode,
        }
    }
}

/// Two paths name the same file as std compares paths (`Path ==`): they
/// have the same components.
pub open spec fn same_path(a: Seq<char>, b: Seq<char>) -> bool {
    path_components(a) == path_components(b)
}

/// Some open document has the path `p`.
pub open spec fn has_doc(docs: Seq<DocumentView>, p: Seq<char>) -> bool {
    exists|i: int| 0 <= i < docs.len() && same_path(#[trigger] docs[i].path, p)
}

/// The position of the document with the path `p` (meaningful when there is one).
pub open spec fn doc_index(docs: Seq<DocumentView>, p: Seq<char>) -> int {
    choose|i: int| 0 <= i < docs.len() && same_path(#[trigger] docs[i].path, p)
}

/// No two open documents share a path.
pub open spec fn unique_paths(docs: Seq<DocumentView>) -> bool {
    forall|i: int, j: int|
        0 <= i < docs.len() && 0 <= j < docs.len() && i != j ==> !same_path(
            #[trigger] docs[i].path,
            #[trigger] docs[j].path,
        )
}

/// Whether the paths `a` and `b` name the same file (`Path ==`).
pub fn paths_equal(a: &str, b: &str) -> (r: bool)
    ensures
        r == same_path(a@, b@),
{
    let ca = components(a);
    let cb = components(b);
    if ca.len() != cb.len() {
        return false;
    }
    let mut i: usize = 0;
    while i < ca.len()
        invariant
            ca@.len() == cb@.len() == path_components(a@).len() == path_components(b@).len(),
            forall|k: int| 0 <= k < ca@.len() ==> #[trigger] ca@[k]@ == path_components(a@)[k],
            forall|k: int| 0 <= k < cb@.len() ==> #[trigger] cb@[k]@ == path_components(b@)[k],
            i <= ca@.len(),
            forall|k: int| 0 <= k < i ==> path_components(a@)[k] == path_components(b@)[k],
        decreases ca@.len() - i,
    {
        if !(ca[i] == cb[i]) {
            assert(path_components(a@)[i as int] != path_components(b@)[i as int]);
            return false;
        }
        i += 1;
    }
    assert(path_components(a@) =~= path_components(b@));
    true
}

/// The panel's invariant: paths are unique and the active path, if any, is
/// that of an open document.
pub open spec fn panel_wf(v: PanelView) -> bool {
    &&& unique_paths(v.docs)
    &&& (v.active matches Some(p) ==> has_doc(v.docs, p))
}

/// The path names a Markdown file: its extension is `md`.
pub open spec fn is_markdown(p: Seq<char>) -> bool {
    path_extension(p) == Some(seq!['m', 'd'])
}

/// Whether the path names a Markdown file (its extension is `md`).
pub fn is_markdown_path(path: &str) -> (r: bool)
    ensures
        r == is_markdown(path@),
{
    let ext = extension(path);
    let md = match &ext {
        Some(e) => {
            let cs = crate::text::chars_of(e.as_str());
            cs.len() == 2 && cs[0] == 'm' && cs[1] == 'd'
        },
        None => false,
    };
    proof {
        if md {
            assert(path_extension(path@) == Some(seq!['m', 'd']));
        } else {
            if let Some(e) = ext {
                assert(e@ != seq!['m', 'd']);
            }
        }
    }
    md
}

/// A document just opened, before its content is read.
pub open spec fn fresh_doc(p: Seq<char>) -> DocumentView {
    DocumentView {
        path: p,
        text: Seq::empty(),
        saved_text: Seq::empty(),
        dirty: false,
        outline: Seq::empty(),
    }
}

/// The panel after opening `p`: a non-Markdown path changes nothing, an open
/// document becomes active, any other path is appended as a fresh document
/// and becomes active.
pub open spec fn spec_open(v: PanelView, p: Seq<char>) -> PanelView {
    if !is_markdown(p) {
        v
    } else if has_doc(v.docs, p) {
        PanelView { active: Some(p), ..v }
    } else {
        PanelView { docs: v.docs.push(fresh_doc(p)), active: Some(p), ..v }
    }
}

/// The panel after closing `p`: its document leaves the tab order; if it was
/// active, the first remaining tab (if any) becomes active.
pub open spec fn spec_close(v: PanelView, p: Seq<char>) -> PanelView {
    if !has_doc(v.docs, p) {
        v
    } else {
        let docs = v.docs.remove(doc_index(v.docs, p));
        PanelView {
            docs: docs,
            active: if v.active matches Some(a) && same_path(a, p) {
                if docs.len() > 0 {
                    Some(docs[0].path)
                } else {
                    None
                }
            } else {
                v.active
            },
            ..v
        }
    }
}

/// The panel after activating `p`, which must be open to have any effect.
pub open spec fn spec_set_active(v: PanelView, p: Seq<char>) -> PanelView {
    if has_doc(v.docs, p) {
        PanelView { active: Some(p), ..v }
    } else {
        v
    }
}

/// The panel with every document closed and the editor shown.
pub open spec fn spec_close_all() -> PanelView {
    PanelView { docs: Seq::empty(), active: None, preview_mode: false }
}

/// The panel with the document at `p` (if open) changed by `f`.
pub open spec fn update_doc(
    v: PanelView,
    p: Seq<char>,
    f: spec_fn(DocumentView) -> DocumentView,
) -> PanelView {
    if has_doc(v.docs, p) {
        let i = doc_index(v.docs, p);
        PanelView { docs: v.docs.update(i, f(v.docs[i])), ..v }
    } else {
        v
    }
}

/// The document after its editor text became `text`: it is dirty exactly
/// when `text` differs from the saved text, and its outline is that of `text`.
pub open spec fn edited(d: DocumentView, text: Seq<char>) -> DocumentView {
    DocumentView {
        text: text,
        dirty: text != d.saved_text,
        outline: spec_extract_headings(text),
        ..d
    }
}

/// The document after its file was read with content `text`.
pub open spec fn loaded(d: DocumentView, text: Seq<char>) -> DocumentView {
    DocumentView { text: text, saved_text: text, outline: spec_extract_headings(text), ..d }
}

/// The text the editor shows when a file cannot be read.
pub open spec fn unreadable_text() -> Seq<char> {
    "(无法读取文件)"@
}

/// The document after reading its file failed.
pub open spec fn load_failed(d: DocumentView) -> DocumentView {
    DocumentView { text: unreadable_text(), ..d }
}

/// The document after `text` was written to its file.
pub open spec fn saved(d: DocumentView, text: Seq<char>) -> DocumentView {
    DocumentView { saved_text: text, dirty: false, ..d }
}

/// The number of documents with unsaved changes.
pub open spec fn count_dirty(docs: Seq<DocumentView>) -> nat
    decreases docs.len(),
{
    if docs.len() == 0 {
        0
    } else {
        count_dirty(docs.drop_last()) + if docs.last().dirty {
            1nat
        } else {
            0nat
        }
    }
}

/// The active document, if any.
pub open spec fn active_doc(v: PanelView) -> Option<DocumentView> {
    match v.active {
        Some(p) => if has_doc(v.docs, p) {
            Some(v.docs[doc_index(v.docs, p)])
        } else {
            None
        },
        None => None,
    }
}

/// The name a tab shows for a path: its file name, or nothing.
pub open spec fn name_of(p: Seq<char>) -> Seq<char> {
    match path_file_name(p) {
        Some(n) => n,
        None => Seq::empty(),
    }
}

/// The mark appended to the tab label of a document with unsaved changes.
pub open spec fn dirty_mark() -> Seq<char> {
    " ●"@
}

/// The label of a document's tab: its file name, marked when dirty.
pub open spec fn tab_label(d: DocumentView) -> Seq<char> {
    if d.dirty {
        name_of(d.path) + dirty_mark()
    } else {
        name_of(d.path)
    }
}

/// The title of the editor panel's tab when no document is active.
pub open spec fn default_tab_name() -> Seq<char> {
    "编辑器"@
}

/// How a document's path is shown relative to the workspace root: the rest
/// after the root when the root is a prefix of it, else the whole path.
pub open spec fn display_path(p: Seq<char>, root: Seq<char>) -> Seq<char> {
    match path_strip_prefix(p, root) {
        Some(r) => r,
        None => p,
    }
}

/// The decimal digit `d` (for `d < 10`).
pub open spec fn digit_char(d: nat) -> char {
    seq!['0', '1', '2', '3', '4', '5', '6', '7', '8', '9'][d as int]
}

/// The decimal numeral of `n`, without leading zeros.
pub open spec fn decimal(n: nat) -> Seq<char>
    decreases n,
{
    if n < 10 {
        seq![digit_char(n)]
    } else {
        decimal(n / 10) + seq![digit_char(n % 10)]
    }
}

/// The status bar text for a document shown as `display`: the notice that
/// no document is open when `display` is empty, else the path, the unsaved
/// mark when `dirty`, and the number of chars.
pub open spec fn spec_status_line(display: Seq<char>, dirty: bool, chars: nat) -> Seq<char> {
    if display.len() == 0 {
        "未打开文档"@
    } else {
        display + (if dirty {
            " · ● 未保存"@
        } else {
            ""@
        }) + " · "@ + decimal(chars) + " 字符"@
    }
}

/// The decimal digit `d`.
fn digit(d: usize) -> (c: char)
    requires
        d < 10,
    ensures
        c == digit_char(d as nat),
{
    match d {
        0 => '0',
        1 => '1',
        2 => '2',
        3 => '3',
        4 => '4',
        5 => '5',
        6 => '6',
        7 => '7',
        8 => '8',
        _ => '9',
    }
}

/// The decimal numeral of `n`.
pub fn decimal_string(n: usize) -> (r: String)
    ensures
        r@ == decimal(n as nat),
    decreases n,
{
    if n < 10 {
        let mut r = String::new();
        crate::std_calls::push_char(&mut r, digit(n));
        assert(r@ =~= seq![digit_char(n as nat)]);
        r
    } else {
        let mut r = decimal_string(n / 10);
        crate::std_calls::push_char(&mut r, digit(n % 10));
        r
    }
}

/// What opening a path did.
pub enum OpenOutcome {
    /// The path is not a Markdown file; nothing was opened. Holds the file name.
    NotMarkdown(String),
    /// The document was already open and is now active.
    Activated,
    /// A new document was added at the end of the tabs and is now active; its
    /// content is still to be read.
    Opened,
}

/// Within unique paths, the index of a matching document is `doc_index`.
pub proof fn lemma_doc_index(docs: Seq<DocumentView>, p: Seq<char>, i: int)
    requires
        unique_paths(docs),
        0 <= i < docs.len(),
        same_path(docs[i].path, p),
    ensures
        has_doc(docs, p),
        doc_index(docs, p) == i,
{
    assert(has_doc(docs, p));
    let j = doc_index(docs, p);
    assert(same_path(docs[j].path, p));
    if i != j {
        assert(!same_path(docs[i].path, docs[j].path));
    }
}

impl Document {
    fn fresh(path: String) -> (d: Document)
        ensures
            d@ == fresh_doc(path@),
    {
        let d = Document {
            path,
            text: String::new(),
            saved_text: String::new(),
            dirty: false,
            outline: Vec::new(),
        };
        assert(heading_views(d.outline@) =~= Seq::<HeadingView>::empty());
        d
    }
}

/// A copy of a list of headings.
fn copy_headings(v: &Vec<Heading>) -> (r: Vec<Heading>)
    ensures
        heading_views(r@) == heading_views(v@),
{
    let mut r: Vec<Heading> = Vec::new();
    let mut i: usize = 0;
    while i < v.len()
        invariant
            i <= v@.len(),
            heading_views(r@) == heading_views(v@.take(i as int)),
        decreases v@.len() - i,
    {
        let h = Heading { level: v[i].level, text: v[i].text.clone(), line: v[i].line };
        let ghost before = r@;
        assert(h@ == v@[i as int]@);
        r.push(h);
        assert(v@.take(i + 1) =~= v@.take(i as int).push(v@[i as int]));
        assert(heading_views(r@) =~= heading_views(before).push(h@));
        assert(heading_views(r@) =~= heading_views(v@.take(i + 1)));
        i += 1;
    }
    assert(v@.take(v@.len() as int) =~= v@);
    r
}

impl EditorPanel {
    /// The panel's invariant.
    pub open spec fn well_formed(&self) -> bool {
        panel_wf(self@)
    }

    /// An empty panel: no documents, editor shown.
    pub fn new() -> (r: Self)
        ensures
            r.well_formed(),
            r@ == spec_close_all(),
    {
        let r = EditorPanel { docs: Vec::new(), active: None, preview_mode: false };
        assert(doc_views(r.docs@) =~= Seq::<DocumentView>::empty());
        r
    }

    /// The position of the document with path `p`.
    fn find(&self, p: &str) -> (r: Option<usize>)
        requires
            self.well_formed(),
        ensures
            match r {
                Some(i) => i < self@.docs.len() && has_doc(self@.docs, p@) && doc_index(
                    self@.docs,
                    p@,
                ) == i,
                None => !has_doc(self@.docs, p@),
            },
    {
        let mut i: usize = 0;
        while i < self.docs.len()
            invariant
                self.well_formed(),
                i <= self.docs@.len(),
                forall|k: int| 0 <= k < i ==> !same_path(#[trigger] self@.docs[k].path, p@),
            decreases self.docs@.len() - i,
        {
            assert(self@.docs[i as int].path == self.docs@[i as int]@.path);
            if paths_equal(self.docs[i].path.as_str(), p) {
                proof {
                    lemma_doc_index(self@.docs, p@, i as int);
                }
                return Some(i);
            }
            i += 1;
        }
        None
    }

    /// Whether a document with path `path` is open.
    pub fn is_open(&self, path: &str) -> (r: bool)
        requires
            self.well_formed(),
        ensures
            r == has_doc(self@.docs, path@),
    {
        let p = path.to_owned();
        self.find(p.as_str()).is_some()
    }

    /// Opens a document: a path that is not a Markdown file is refused, an
    /// open document becomes active, any other path is added as a new tab
    /// (its content to be read by the caller) and becomes active.
    pub fn open(&mut self, path: &str) -> (r: OpenOutcome)
        requires
            old(self).well_formed(),
        ensures
            final(self).well_formed(),
            final(self)@ == spec_open(old(self)@, path@),
            match r {
                OpenOutcome::NotMarkdown(name) => !is_markdown(path@) && name@ == name_of(path@),
                OpenOutcome::Activated => is_markdown(path@) && has_doc(old(self)@.docs, path@),
                OpenOutcome::Opened => is_markdown(path@) && !has_doc(old(self)@.docs, path@),
            },
    {
        let md = is_markdown_path(path);
        if !md {
            let name = match file_name(path) {
                Some(n) => n,
                None => String::new(),
            };
            return OpenOutcome::NotMarkdown(name);
        }
        let p = path.to_owned();
        if self.find(p.as_str()).is_some() {
            self.active = Some(p);
            return OpenOutcome::Activated;
        }
        let ghost before = self.docs@;
        let key = p.clone();
        self.docs.push(Document::fresh(p));
        self.active = Some(key);
        assert(doc_views(self.docs@) =~= doc_views(before).push(fresh_doc(path@)));
        assert(has_doc(self@.docs, path@)) by {
            assert(self@.docs[self@.docs.len() - 1].path == path@);
        }
        OpenOutcome::Opened
    }

    /// Replaces the document at position `i` by `d`, which keeps its path.
    fn replace_doc(&mut self, i: usize, d: Document)
        requires
            old(self).well_formed(),
            i < old(self)@.docs.len(),
            d@.path == old(self)@.docs[i as int].path,
        ensures
            final(self).well_formed(),
            final(self)@ == (PanelView { docs: old(self)@.docs.update(i as int, d@), ..old(self)@ }),
    {
        let ghost before = self.docs@;
        self.docs.remove(i);
        self.docs.insert(i, d);
        assert(self.docs@ =~= before.update(i as int, d));
        assert(doc_views(self.docs@) =~= doc_views(before).update(i as int, d@));
        proof {
            let v = self@;
            assert forall|j: int, k: int|
                0 <= j < v.docs.len() && 0 <= k < v.docs.len() && j != k implies #[trigger] v.docs[j].path
                != #[trigger] v.docs[k].path by {
                assert(v.docs[j].path == old(self)@.docs[j].path);
                assert(v.docs[k].path == old(self)@.docs[k].path);
            }
            if let Some(a) = v.active {
                let j = doc_index(old(self)@.docs, a);
                assert(same_path(v.docs[j].path, a));
            }
        }
    }

    /// Closes the document at `path` (the caller has dealt with unsaved
    /// changes); when it was active, the first remaining tab becomes active.
    pub fn close_doc(&mut self, path: &str)
        requires
            old(self).well_formed(),
        ensures
            final(self).well_formed(),
            final(self)@ == spec_close(old(self)@, path@),
    {
        let p = path.to_owned();
        if let Some(i) = self.find(p.as_str()) {
            let ghost before = self.docs@;
            let ghost old_v = self@;
            self.docs.remove(i);
            assert(doc_views(self.docs@) =~= doc_views(before).remove(i as int));
            let was_active = match &self.active {
                Some(a) => paths_equal(a.as_str(), path),
                None => false,
            };
            if was_active {
                if self.docs.len() > 0 {
                    self.active = Some(self.docs[0].path.clone());
                    assert(self@.docs[0].path == self.docs@[0]@.path);
                } else {
                    self.active = None;
                }
            }
            proof {
                let v = self@;
                assert forall|j: int, k: int|
                    0 <= j < v.docs.len() && 0 <= k < v.docs.len() && j != k implies #[trigger] v.docs[j].path
                    != #[trigger] v.docs[k].path by {
                    let oj = if j < i { j } else { j + 1 };
                    let ok = if k < i { k } else { k + 1 };
                    assert(v.docs[j] == old_v.docs[oj]);
                    assert(v.docs[k] == old_v.docs[ok]);
                }
                if let Some(a) = v.active {
                    if was_active {
                        assert(v.docs[0].path == a);
                    } else {
                        let j = doc_index(old_v.docs, a);
                        assert(same_path(old_v.docs[j].path, a));
                        assert(j != i);
                        let nj = if j < i { j } else { j - 1 };
                        assert(v.docs[nj] == old_v.docs[j]);
                    }
                }
            }
        }
    }

    /// Makes the open document at `path` active; a path that is not open
    /// changes nothing.
    pub fn set_active(&mut self, path: &str)
        requires
            old(self).well_formed(),
        ensures
            final(self).well_formed(),
            final(self)@ == spec_set_active(old(self)@, path@),
    {
        let p = path.to_owned();
        if self.find(p.as_str()).is_some() {
            self.active = Some(p);
        }
    }

    /// Closes every document (their unsaved changes are dropped) and shows
    /// the editor.
    pub fn close_all(&mut self)
        requires
            old(self).well_formed(),
        ensures
            final(self).well_formed(),
            final(self)@ == spec_close_all(),
    {
        self.docs.clear();
        self.active = None;
        self.preview_mode = false;
        assert(doc_views(self.docs@) =~= Seq::<DocumentView>::empty());
    }

    /// The number of documents with unsaved changes.
    pub fn dirty_count(&self) -> (r: usize)
        requires
            self.well_formed(),
        ensures
            r == count_dirty(self@.docs),
    {
        let mut r: usize = 0;
        let mut i: usize = 0;
        while i < self.docs.len()
            invariant
                i <= self.docs@.len(),
                r <= i,
                r == count_dirty(self@.docs.take(i as int)),
            decreases self.docs@.len() - i,
        {
            assert(self@.docs.take(i + 1).drop_last() =~= self@.docs.take(i as int));
            assert(self@.docs[i as int].dirty == self.docs[i as int].dirty);
            if self.docs[i].dirty {
                r += 1;
            }
            i += 1;
        }
        assert(self@.docs.take(i as int) =~= self@.docs);
        r
    }

    /// Whether the document at `path` is open and has unsaved changes.
    pub fn is_dirty(&self, path: &str) -> (r: bool)
        requires
            self.well_formed(),
        ensures
            r == (has_doc(self@.docs, path@) && self@.docs[doc_index(self@.docs, path@)].dirty),
    {
        let p = path.to_owned();
        match self.find(p.as_str()) {
            Some(i) => self.docs[i].dirty,
            None => false,
        }
    }

    /// Records that the editor text of the document at `path` is now `text`:
    /// the document is dirty exactly when `text` differs from what was saved,
    /// and its outline is extracted anew. Returns whether it is open.
    pub fn on_doc_changed(&mut self, path: &str, text: &str) -> (found: bool)
        requires
            old(self).well_formed(),
        ensures
            final(self).well_formed(),
            found == has_doc(old(self)@.docs, path@),
            final(self)@ == update_doc(old(self)@, path@, |d: DocumentView| edited(d, text@)),
    {
        let p = path.to_owned();
        match self.find(p.as_str()) {
            None => false,
            Some(i) => {
                let t = text.to_owned();
                let dirty = !(t == self.docs[i].saved_text);
                let d = Document {
                    path: self.docs[i].path.clone(),
                    text: t,
                    saved_text: self.docs[i].saved_text.clone(),
                    dirty,
                    outline: extract_headings(text),
                };
                assert(d@ == edited(self@.docs[i as int], text@));
                self.replace_doc(i, d);
                true
            },
        }
    }

    /// Records that the file of the document at `path` was read with content
    /// `text`: it becomes both the editor text and the saved text, and the
    /// outline is extracted from it. Returns whether the document is open.
    pub fn content_loaded(&mut self, path: &str, text: &str) -> (found: bool)
        requires
            old(self).well_formed(),
        ensures
            final(self).well_formed(),
            found == has_doc(old(self)@.docs, path@),
            final(self)@ == update_doc(old(self)@, path@, |d: DocumentView| loaded(d, text@)),
    {
        let p = path.to_owned();
        match self.find(p.as_str()) {
            None => false,
            Some(i) => {
                let d = Document {
                    path: self.docs[i].path.clone(),
                    text: text.to_owned(),
                    saved_text: text.to_owned(),
                    dirty: self.docs[i].dirty,
                    outline: extract_headings(text),
                };
                assert(d@ == loaded(self@.docs[i as int], text@));
                self.replace_doc(i, d);
                true
            },
        }
    }

    /// Records that the file of the document at `path` could not be read:
    /// the editor shows a notice in place of the content. Returns whether
    /// the document is open.
    pub fn content_unreadable(&mut self, path: &str) -> (found: bool)
        requires
            old(self).well_formed(),
        ensures
            final(self).well_formed(),
            found == has_doc(old(self)@.docs, path@),
            final(self)@ == update_doc(old(self)@, path@, |d: DocumentView| load_failed(d)),
    {
        let p = path.to_owned();
        match self.find(p.as_str()) {
            None => false,
            Some(i) => {
                let d = Document {
                    path: self.docs[i].path.clone(),
                    text: String::from_str("(无法读取文件)"),
                    saved_text: self.docs[i].saved_text.clone(),
                    dirty: self.docs[i].dirty,
                    outline: copy_headings(&self.docs[i].outline),
                };
                assert(d@ == load_failed(self@.docs[i as int]));
                self.replace_doc(i, d);
                true
            },
        }
    }

    /// Records that `text` was written to the file of the document at
    /// `path`: it becomes the saved text and the document is clean. Returns
    /// whether the document is open.
    pub fn mark_saved(&mut self, path: &str, text: &str) -> (found: bool)
        requires
            old(self).well_formed(),
        ensures
            final(self).well_formed(),
            found == has_doc(old(self)@.docs, path@),
            final(self)@ == update_doc(old(self)@, path@, |d: DocumentView| saved(d, text@)),
    {
        let p = path.to_owned();
        match self.find(p.as_str()) {
            None => false,
            Some(i) => {
                let d = Document {
                    path: self.docs[i].path.clone(),
                    text: self.docs[i].text.clone(),
                    saved_text: text.to_owned(),
                    dirty: false,
                    outline: copy_headings(&self.docs[i].outline),
                };
                assert(d@ == saved(self@.docs[i as int], text@));
                self.replace_doc(i, d);
                true
            },
        }
    }

    /// The position of the active document, if any.
    fn active_position(&self) -> (r: Option<usize>)
        requires
            self.well_formed(),
        ensures
            match r {
                Some(i) => i < self@.docs.len() && active_doc(self@) == Some(self@.docs[i as int])
                    && (self@.active matches Some(a) && doc_index(self@.docs, a) == i),
                None => active_doc(self@) is None && self@.active is None,
            },
    {
        match &self.active {
            Some(a) => {
                let r = self.find(a.as_str());
                r
            },
            None => None,
        }
    }

    /// The path that the open document equal to `path` was opened with, if
    /// one is open.
    pub fn doc_path(&self, path: &str) -> (r: Option<String>)
        requires
            self.well_formed(),
        ensures
            opt_view(r) == if has_doc(self@.docs, path@) {
                Some(self@.docs[doc_index(self@.docs, path@)].path)
            } else {
                None
            },
    {
        match self.find(path) {
            Some(i) => {
                assert(self@.docs[i as int].path == self.docs@[i as int]@.path);
                Some(self.docs[i].path.clone())
            },
            None => None,
        }
    }

    /// The path of the active document, if any.
    pub fn active_path(&self) -> (r: Option<String>)
        ensures
            opt_view(r) == self@.active,
    {
        match &self.active {
            Some(a) => Some(a.clone()),
            None => None,
        }
    }

    /// The outline of the active document (empty when none is active).
    pub fn active_outline(&self) -> (r: Vec<Heading>)
        requires
            self.well_formed(),
        ensures
            heading_views(r@) == match active_doc(self@) {
                Some(d) => d.outline,
                None => Seq::empty(),
            },
    {
        match self.active_position() {
            Some(i) => copy_headings(&self.docs[i].outline),
            None => {
                let r: Vec<Heading> = Vec::new();
                assert(heading_views(r@) =~= Seq::<HeadingView>::empty());
                r
            },
        }
    }

    /// What the status bar shows of the active document: its path relative
    /// to `root`, whether it has unsaved changes, and its number of chars;
    /// an empty path, `false` and 0 when no document is active.
    pub fn status_text(&self, root: &str) -> (r: (String, bool, usize))
        requires
            self.well_formed(),
        ensures
            match active_doc(self@) {
                Some(d) => r.0@ == display_path(d.path, root@) && r.1 == d.dirty && r.2
                    == d.text.len(),
                None => r.0@ == Seq::<char>::empty() && !r.1 && r.2 == 0,
            },
    {
        match self.active_position() {
            Some(i) => {
                let doc = &self.docs[i];
                let display = match strip_prefix(doc.path.as_str(), root) {
                    Some(r) => r,
                    None => doc.path.clone(),
                };
                let chars = doc.text.as_str().unicode_len();
                (display, doc.dirty, chars)
            },
            None => (String::new(), false, 0),
        }
    }

    /// The text at the right end of the status bar: the active document's
    /// path relative to `root`, a mark when it has unsaved changes, and its
    /// number of chars; a notice when no document is shown.
    pub fn status_line(&self, root: &str) -> (r: String)
        requires
            self.well_formed(),
        ensures
            r@ == match active_doc(self@) {
                Some(d) => spec_status_line(display_path(d.path, root@), d.dirty, d.text.len()),
                None => spec_status_line(Seq::empty(), false, 0),
            },
    {
        let (display, dirty, chars) = self.status_text(root);
        if display.as_str().is_empty() {
            return String::from_str("未打开文档");
        }
        let with_mark = if dirty {
            display.concat(" · ● 未保存")
        } else {
            display.concat("")
        };
        let count = decimal_string(chars);
        with_mark.concat(" · ").concat(count.as_str()).concat(" 字符")
    }

    /// The title of the editor panel's tab: the file name of the active
    /// document, or the panel's name.
    pub fn tab_name(&self) -> (r: String)
        ensures
            r@ == match self@.active {
                Some(p) => match path_file_name(p) {
                    Some(n) => n,
                    None => default_tab_name(),
                },
                None => default_tab_name(),
            },
    {
        let name = match &self.active {
            Some(a) => file_name(a.as_str()),
            None => None,
        };
        match name {
            Some(n) => n,
            None => String::from_str("编辑器"),
        }
    }

    /// The label of every tab, in tab order: the file name, followed by a
    /// dot when the document has unsaved changes.
    pub fn tab_labels(&self) -> (r: Vec<String>)
        requires
            self.well_formed(),
        ensures
            r@.len() == self@.docs.len(),
            forall|k: int| 0 <= k < r@.len() ==> #[trigger] r@[k]@ == tab_label(self@.docs[k]),
    {
        let mut r: Vec<String> = Vec::new();
        let mut i: usize = 0;
        while i < self.docs.len()
            invariant
                i <= self.docs@.len(),
                r@.len() == i,
                forall|k: int| 0 <= k < i ==> #[trigger] r@[k]@ == tab_label(self@.docs[k]),
            decreases self.docs@.len() - i,
        {
            let doc = &self.docs[i];
            let name = match file_name(doc.path.as_str()) {
                Some(n) => n,
                None => String::new(),
            };
            let label = if doc.dirty {
                name.concat(" ●")
            } else {
                name
            };
            assert(self@.docs[i as int] == doc@);
            r.push(label);
            i += 1;
        }
        r
    }

    /// The position of the active tab, or 0 when no document is active.
    pub fn active_index(&self) -> (r: usize)
        requires
            self.well_formed(),
        ensures
            match self@.active {
                Some(p) => r == doc_index(self@.docs, p),
                None => r == 0,
            },
    {
        match self.active_position() {
            Some(i) => i,
            None => 0,
        }
    }

    /// The path of the tab at position `ix`, if there is one.
    pub fn tab_path(&self, ix: usize) -> (r: Option<String>)
        ensures
            opt_view(r) == if ix < self@.docs.len() {
                Some(self@.docs[ix as int].path)
            } else {
                None
            },
    {
        if ix < self.docs.len() {
            let p = self.docs[ix].path.clone();
            assert(self@.docs[ix as int] == self.docs@[ix as int]@);
            Some(p)
        } else {
            None
        }
    }

    /// The paths of the open documents, in tab order.
    pub fn tab_paths(&self) -> (r: Vec<String>)
        ensures
            r@.len() == self@.docs.len(),
            forall|k: int| 0 <= k < r@.len() ==> #[trigger] r@[k]@ == self@.docs[k].path,
    {
        let mut r: Vec<String> = Vec::new();
        let mut i: usize = 0;
        while i < self.docs.len()
            invariant
                i <= self.docs@.len(),
                r@.len() == i,
                forall|k: int| 0 <= k < i ==> #[trigger] r@[k]@ == self@.docs[k].path,
            decreases self.docs@.len() - i,
        {
            assert(self@.docs[i as int] == self.docs@[i as int]@);
            r.push(self.docs[i].path.clone());
            i += 1;
        }
        r
    }

    /// Whether the preview replaces the editor.
    pub fn preview_mode(&self) -> (r: bool)
        ensures
            r == self@.preview_mode,
    {
        self.preview_mode
    }

    /// Switches between the editor and the preview; returns the new mode.
    pub fn toggle_preview(&mut self) -> (r: bool)
        requires
            old(self).well_formed(),
        ensures
            final(self).well_formed(),
            final(self)@ == (PanelView { preview_mode: !old(self)@.preview_mode, ..old(self)@ }),
            r == final(self)@.preview_mode,
    {
        self.preview_mode = !self.preview_mode;
        self.preview_mode
    }

    /// Follows a rename on disk of `from` to `to` (a file or a directory): every
    /// open document at `from` or below it takes the renamed path, and so does
    /// the active path. Should two documents end up with one path, the first
    /// in tab order stays.
    pub fn on_paths_renamed(&mut self, from: &str, to: &str)
        requires
            old(self).well_formed(),
        ensures
            final(self).well_formed(),
            final(self)@ == spec_rename(old(self)@, from@, to@),
    {
        let ghost v0 = self@;
        let ghost mapped = v0.docs.map_values(|d: DocumentView| rename_doc(d, from@, to@));
        let new_active = match self.active_position() {
            Some(i) => Some(rename_path(self.docs[i].path.as_str(), from, to)),
            None => None,
        };
        let mut rest: Vec<Document> = Vec::new();
        std::mem::swap(&mut rest, &mut self.docs);
        let ghost original = rest@;
        assert(doc_views(original) == v0.docs);
        let mut out: Vec<Document> = Vec::new();
        let mut i: usize = 0;
        let n = rest.len();
        while i < n
            invariant
                n == original.len(),
                i <= n,
                rest@ == original.skip(i as int),
                doc_views(original) == v0.docs,
                mapped == v0.docs.map_values(|d: DocumentView| rename_doc(d, from@, to@)),
                unique_paths(doc_views(out@)),
                doc_views(out@) == dedup_docs(mapped.take(i as int)),
            decreases n - i,
        {
            let d = rest.remove(0);
            assert(d == original[i as int]);
            let np = rename_path(d.path.as_str(), from, to);
            let nd = Document {
                path: np,
                text: d.text,
                saved_text: d.saved_text,
                dirty: d.dirty,
                outline: d.outline,
            };
            assert(nd@ == mapped[i as int]);
            assert(mapped.take(i + 1).drop_last() =~= mapped.take(i as int));
            assert(mapped.take(i + 1).last() == nd@);
            let mut present = false;
            let mut k: usize = 0;
            while k < out.len()
                invariant
                    k <= out@.len(),
                    present == has_doc(doc_views(out@.take(k as int)), nd@.path),
                decreases out@.len() - k,
            {
                assert(doc_views(out@.take(k + 1)) =~= doc_views(out@.take(k as int)).push(out@[k as int]@));
                assert(out@[k as int]@.path == out[k as int].path@);
                if paths_equal(out[k].path.as_str(), nd.path.as_str()) {
                    assert(same_path(doc_views(out@.take(k + 1))[k as int].path, nd@.path));
                    present = true;
                } else if present {
                    proof {
                        let j = choose|j: int| 0 <= j < k && same_path(#[trigger] doc_views(out@.take(k as int))[j].path, nd@.path);
                        assert(doc_views(out@.take(k + 1))[j] == doc_views(out@.take(k as int))[j]);
                    }
                } else {
                    assert forall|j: int| 0 <= j < k + 1 implies !same_path(#[trigger] doc_views(out@.take(k + 1))[j].path, nd@.path) by {
                        if j < k {
                            assert(doc_views(out@.take(k + 1))[j] == doc_views(out@.take(k as int))[j]);
                        }
                    }
                }
                k += 1;
            }
            assert(out@.take(out@.len() as int) =~= out@);
            if !present {
                let ghost before = out@;
                out.push(nd);
                assert(doc_views(out@) =~= doc_views(before).push(mapped[i as int]));
                proof {
                    let w = doc_views(out@);
                    assert forall|a: int, b: int|
                        0 <= a < w.len() && 0 <= b < w.len() && a != b implies !same_path(#[trigger] w[a].path,
                        #[trigger] w[b].path) by {
                        if a < w.len() - 1 && b < w.len() - 1 {
                            assert(w[a] == doc_views(before)[a]);
                            assert(w[b] == doc_views(before)[b]);
                        } else if a == w.len() - 1 {
                            assert(w[b] == doc_views(before)[b]);
                        } else {
                            assert(w[a] == doc_views(before)[a]);
                        }
                    }
                }
            }
            i += 1;
        }
        assert(mapped.take(n as int) =~= mapped);
        self.docs = out;
        self.active = new_active;
        proof {
            if let Some(a) = v0.active {
                let j = doc_index(v0.docs, a);
                assert(mapped[j].path == renamed_path(v0.docs[j].path, from@, to@));
                lemma_dedup_keeps(mapped, j);
            }
        }
    }
}

/// A path after `old` was renamed to `new`: a path at or below `old` moves
/// below `new`, any other path stays.
pub open spec fn renamed_path(p: Seq<char>, old: Seq<char>, new: Seq<char>) -> Seq<char> {
    match path_strip_prefix(p, old) {
        Some(r) => if r.len() == 0 {
            new
        } else {
            path_join(new, r)
        },
        None => p,
    }
}

/// A document after `old` was renamed to `new`.
pub open spec fn rename_doc(d: DocumentView, old: Seq<char>, new: Seq<char>) -> DocumentView {
    DocumentView { path: renamed_path(d.path, old, new), ..d }
}

/// The documents with, for each path, only the first one that has it.
pub open spec fn dedup_docs(s: Seq<DocumentView>) -> Seq<DocumentView>
    decreases s.len(),
{
    if s.len() == 0 {
        s
    } else {
        let d = dedup_docs(s.drop_last());
        if has_doc(d, s.last().path) {
            d
        } else {
            d.push(s.last())
        }
    }
}

/// The panel after `old` was renamed to `new` on disk.
pub open spec fn spec_rename(v: PanelView, old: Seq<char>, new: Seq<char>) -> PanelView {
    PanelView {
        docs: dedup_docs(v.docs.map_values(|d: DocumentView| rename_doc(d, old, new))),
        active: match v.active {
            Some(a) => Some(renamed_path(v.docs[doc_index(v.docs, a)].path, old, new)),
            None => None,
        },
        ..v
    }
}

/// Every path of `s` is still found after dropping repeated paths.
pub proof fn lemma_dedup_keeps(s: Seq<DocumentView>, j: int)
    requires
        0 <= j < s.len(),
    ensures
        has_doc(dedup_docs(s), s[j].path),
    decreases s.len(),
{
    let d = dedup_docs(s.drop_last());
    if j < s.len() - 1 {
        lemma_dedup_keeps(s.drop_last(), j);
        assert(s.drop_last()[j] == s[j]);
        if !has_doc(d, s.last().path) {
            let k = choose|k: int| 0 <= k < d.len() && same_path(#[trigger] d[k].path, s[j].path);
            assert(d.push(s.last())[k] == d[k]);
        }
    } else {
        if !has_doc(d, s.last().path) {
            assert(d.push(s.last())[d.len() as int] == s[j]);
        }
    }
}

/// Where the path `p` is after `old` was renamed to `new`.
pub fn rename_path(p: &str, old: &str, new: &str) -> (r: String)
    ensures
        r@ == renamed_path(p@, old@, new@),
{
    match strip_prefix(p, old) {
        Some(rest) => if rest.as_str().is_empty() {
            new.to_owned()
        } else {
            join(new, rest.as_str())
        },
        None => p.to_owned(),
    }
}

/// Where a link in the preview leads.
pub enum LinkTarget {
    /// An anchor within the document (`#...`), which is not followed.
    Anchor,
    /// An `http://` or `https://` address, for the system browser.
    External,
    /// A path relative to the document's directory, opened when it names a file.
    File(String),
}

/// `pre` is a prefix of `s`.
pub open spec fn is_prefix_of(pre: Seq<char>, s: Seq<char>) -> bool {
    pre.len() <= s.len() && s.take(pre.len() as int) == pre
}

/// The view of a link target.
pub open spec fn link_view(t: LinkTarget) -> Option<Option<Seq<char>>> {
    match t {
        LinkTarget::Anchor => None,
        LinkTarget::External => Some(None),
        LinkTarget::File(p) => Some(Some(p@)),
    }
}

/// Where the link `url` in the preview of the document at `doc_path` leads:
/// `None` for an anchor, `Some(None)` for a web address, `Some(Some(p))` for
/// the path `p` of `url` taken relative to the document's directory.
pub open spec fn spec_link_target(doc_path: Seq<char>, url: Seq<char>) -> Option<Option<Seq<char>>> {
    if url.len() > 0 && url[0] == '#' {
        None
    } else if is_prefix_of("http://"@, url) || is_prefix_of("https://"@, url) {
        Some(None)
    } else {
        Some(
            Some(
                match path_parent(doc_path) {
                    Some(dir) => path_join(dir, url),
                    None => url,
                },
            ),
        )
    }
}

/// Whether `pre` is a prefix of `s`.
fn starts_with(s: &Vec<char>, pre: &str) -> (r: bool)
    ensures
        r == is_prefix_of(pre@, s@),
{
    let p = crate::text::chars_of(pre);
    if p.len() > s.len() {
        return false;
    }
    let mut i: usize = 0;
    while i < p.len()
        invariant
            p@ == pre@,
            p@.len() <= s@.len(),
            i <= p@.len(),
            forall|k: int| 0 <= k < i ==> s@[k] == p@[k],
        decreases p@.len() - i,
    {
        if s[i] != p[i] {
            assert(s@.take(p@.len() as int)[i as int] != p@[i as int]);
            return false;
        }
        i += 1;
    }
    assert(s@.take(p@.len() as int) =~= p@);
    true
}

/// Where a link clicked in the preview of the document at `doc_path` leads.
pub fn preview_link_target(doc_path: &str, url: &str) -> (r: LinkTarget)
    ensures
        link_view(r) == spec_link_target(doc_path@, url@),
{
    let cs = crate::text::chars_of(url);
    if cs.len() > 0 && cs[0] == '#' {
        return LinkTarget::Anchor;
    }
    if starts_with(&cs, "http://") || starts_with(&cs, "https://") {
        return LinkTarget::External;
    }
    let target = match parent(doc_path) {
        Some(dir) => join(dir.as_str(), url),
        None => url.to_owned(),
    };
    LinkTarget::File(target)
}

/// Opening a document twice is the same as opening it once.
pub proof fn lemma_open_idempotent(v: PanelView, p: Seq<char>)
    requires
        panel_wf(v),
    ensures
        spec_open(spec_open(v, p), p) == spec_open(v, p),
{
    if is_markdown(p) && !has_doc(v.docs, p) {
        let w = spec_open(v, p);
        assert(w.docs[w.docs.len() - 1].path == p);
        assert(has_doc(w.docs, p));
    }
}

/// Opening a Markdown file that is not open and closing it again leaves the
/// other tabs as they were, in order; the first of them (if any) is active.
pub proof fn lemma_open_then_close(v: PanelView, p: Seq<char>)
    requires
        panel_wf(v),
        is_markdown(p),
        !has_doc(v.docs, p),
    ensures
        spec_close(spec_open(v, p), p).docs == v.docs,
        spec_close(spec_open(v, p), p).active == if v.docs.len() > 0 {
            Some(v.docs[0].path)
        } else {
            None
        },
{
    let w = spec_open(v, p);
    let n = v.docs.len() as int;
    assert(w.docs[n].path == p);
    assert(unique_paths(w.docs)) by {
        assert forall|i: int, j: int|
            0 <= i < w.docs.len() && 0 <= j < w.docs.len() && i != j implies #[trigger] w.docs[i].path
            != #[trigger] w.docs[j].path by {
            if i < n && j < n {
                assert(w.docs[i] == v.docs[i] && w.docs[j] == v.docs[j]);
            } else if i < n {
                assert(w.docs[i] == v.docs[i]);
            } else {
                assert(w.docs[j] == v.docs[j]);
            }
        }
    }
    lemma_doc_index(w.docs, p, n);
    assert(w.docs.remove(n) =~= v.docs);
}

/// Whatever was edited before, bringing a document's text back to what was
/// saved leaves no unsaved changes; after saving a text, the same text is clean.
pub proof fn lemma_back_to_saved_is_clean(d: DocumentView, edits: Seq<char>, text: Seq<char>)
    ensures
        !edited(edited(d, edits), d.saved_text).dirty,
        !edited(saved(d, text), text).dirty,
        edited(d, text).dirty <==> text != d.saved_text,
{
}

/// After closing every document nothing is unsaved.
pub proof fn lemma_close_all_clean()
    ensures
        count_dirty(spec_close_all().docs) == 0,
        active_doc(spec_close_all()) is None,
{
}

/// Closing a document that is not the active one keeps the active document.
pub proof fn lemma_close_background_keeps_active(v: PanelView, p: Seq<char>)
    requires
        panel_wf(v),
        v.active matches Some(a) && !same_path(a, p),
    ensures
        spec_close(v, p).active == v.active,
{
}

/// Closing an open document removes it, and only it: its path is no longer
/// open, one tab fewer remains, and every other path is open exactly when it
/// was.
pub proof fn lemma_close_removes_only_it(v: PanelView, p: Seq<char>, q: Seq<char>)
    requires
        panel_wf(v),
        has_doc(v.docs, p),
        !same_path(q, p),
    ensures
        !has_doc(spec_close(v, p).docs, p),
        spec_close(v, p).docs.len() == v.docs.len() - 1,
        has_doc(spec_close(v, p).docs, q) == has_doc(v.docs, q),
{
    let idx = doc_index(v.docs, p);
    let d = spec_close(v, p).docs;
    assert(d == v.docs.remove(idx));
    assert forall|j: int| 0 <= j < d.len() implies !same_path(#[trigger] d[j].path, p) by {
        let o = if j < idx { j } else { j + 1 };
        assert(d[j] == v.docs[o]);
        assert(o != idx);
    }
    if has_doc(v.docs, q) {
        let k = choose|k: int| 0 <= k < v.docs.len() && same_path(#[trigger] v.docs[k].path, q);
        assert(k != idx);
        let j = if k < idx { k } else { k - 1 };
        assert(d[j] == v.docs[k]);
        assert(same_path(d[j].path, q));
    }
    if has_doc(d, q) {
        let j = choose|j: int| 0 <= j < d.len() && same_path(#[trigger] d[j].path, q);
        let o = if j < idx { j } else { j + 1 };
        assert(d[j] == v.docs[o]);
        assert(same_path(v.docs[o].path, q));
    }
}

/// The unsaved count adds one for each document with unsaved changes:
/// adding a document adds one when it is dirty and nothing when it is not.
pub proof fn lemma_count_dirty_push(docs: Seq<DocumentView>, d: DocumentView)
    ensures
        count_dirty(docs.push(d)) == count_dirty(docs) + if d.dirty {
            1int
        } else {
            0int
        },
{
    assert(docs.push(d).drop_last() =~= docs);
}

/// The unsaved count is the number of documents that are dirty.
pub proof fn lemma_count_dirty_counts(docs: Seq<DocumentView>)
    ensures
        count_dirty(docs) == docs.filter(|d: DocumentView| d.dirty).len(),
    decreases docs.len(),
{
    reveal(Seq::filter);
    if docs.len() > 0 {
        lemma_count_dirty_counts(docs.drop_last());
    }
}

} // verus!
