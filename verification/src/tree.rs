//! The directory tree: its nodes, which entries it shows and in what order,
//! the search of a node by path, and the checks before renaming a node.

use vstd::prelude::*;

use crate::documents::{is_markdown, paths_equal, same_path};
use crate::std_calls::{join, parent, path_join, path_parent};
use crate::text::{chars_of, same_text, string_of, trim, trim_end_at, trim_start_at};

verus! {

/// A node of the directory tree: a directory with its children, or a file.
/// Files that are not Markdown are shown disabled.

pub struct DirNode {
    pub path: String,
    pub name: String,
    pub is_dir: bool,
    pub disabled: bool,
    pub children: Vec<DirNode>,
}

/// `a` and `b` are the same tree: equal fields, and children that are the
/// same trees, in the same order.
pub open spec fn same_tree(a: DirNode, b: DirNode) -> bool
    decreases a, 1int,
{
    &&& a.path == b.path
    &&& a.name == b.name
    &&& a.is_dir == b.is_dir
    &&& a.disabled == b.disabled
    &&& same_trees(a.children@, b.children@)
}

/// `xs` and `ys` are the same trees, in the same order.
pub open spec fn same_trees(xs: Seq<DirNode>, ys: Seq<DirNode>) -> bool
    decreases xs, 0int,
{
    if xs.len() == 0 {
        ys.len() == 0
    } else {
        &&& ys.len() > 0
        &&& same_tree(xs.last(), ys.last())
        &&& same_trees(xs.drop_last(), ys.drop_last())
    }
}

impl Clone for DirNode {
    /// A copy of the node with copies of all the nodes below it.
    fn clone(&self) -> (r: Self)
        ensures
            same_tree(*self, r),
        decreases self,
    {
        let mut children: Vec<DirNode> = Vec::new();
        let mut i: usize = 0;
        while i < self.children.len()
            invariant
                i <= self.children@.len(),
                same_trees(self.children@.subrange(0, i as int), children@),
            decreases self.children@.len() - i,
        {
            proof {
                assert(decreases_to!(self.children => self.children@));
                assert(decreases_to!(self.children@ => self.children@[i as int]));
            }
            let c = self.children[i].clone();
            let ghost before = children@;
            children.push(c);
            proof {
                let xs = self.children@.subrange(0, i + 1);
                assert(xs.last() == self.children@[i as int]);
                assert(xs.drop_last() =~= self.children@.subrange(0, i as int));
                assert(children@.last() == c);
                assert(children@.drop_last() =~= before);
            }
            i += 1;
        }
        assert(self.children@.subrange(0, i as int) =~= self.children@);
        DirNode {
            path: self.path.clone(),
            name: self.name.clone(),
            is_dir: self.is_dir,
            disabled: self.disabled,
            children,
        }
    }
}

/// The first node, in pre-order (a node before its children, siblings in
/// order), whose path is `id`.
pub open spec fn find_in(nodes: Seq<DirNode>, id: Seq<char>) -> Option<DirNode>
    decreases nodes,
{
    if nodes.len() == 0 {
        None
    } else {
        let first = nodes[0];
        if first.path@ == id {
            Some(first)
        } else {
            match find_in(first.children@, id) {
                Some(n) => Some(n),
                None => find_in(nodes.drop_first(), id),
            }
        }
    }
}

/// Finds, in nested tree nodes, the node whose path is `id` (the first one
/// in pre-order).
/// The id is compared as text, as the tree compares its item ids.
pub fn find_item<'a>(items: &'a [DirNode], id: &str) -> (r: Option<&'a DirNode>)
    ensures
        match r {
            Some(n) => find_in(items@, id@) == Some(*n),
            None => find_in(items@, id@) is None,
        },
{
    let key = id.to_owned();
    find_node(items, &key)
}

fn find_node<'a>(items: &'a [DirNode], id: &String) -> (r: Option<&'a DirNode>)
    ensures
        match r {
            Some(n) => find_in(items@, id@) == Some(*n),
            None => find_in(items@, id@) is None,
        },
    decreases items@,
{
    let mut i: usize = 0;
    assert(items@.skip(0) =~= items@);
    while i < items.len()
        invariant
            i <= items@.len(),
            find_in(items@, id@) == find_in(items@.skip(i as int), id@),
        decreases items@.len() - i,
    {
        let item = &items[i];
        assert(items@.skip(i as int)[0] == *item);
        assert(items@.skip(i as int).drop_first() =~= items@.skip(i + 1));
        if item.path == *id {
            return Some(item);
        }
        proof {
            assert(decreases_to!(items@ => items@[i as int]));
            assert(decreases_to!(items@[i as int] => items@[i as int].children));
            assert(decreases_to!(items@[i as int].children => items@[i as int].children@));
        }
        if let Some(found) = find_node(item.children.as_slice(), id) {
            return Some(found);
        }
        i += 1;
    }
    None
}


/// What the tree needs to know of an entry read from a directory.
pub struct DirEntryInfo {
    pub path: String,
    pub name: String,
    pub is_dir: bool,
}

/// `a` comes no later than `b` in the order of names, compared char by char
/// by code point (for UTF-8 names, the byte order that file names sort by).
pub open spec fn name_le(a: Seq<char>, b: Seq<char>) -> bool
    decreases a.len(),
{
    if a.len() == 0 {
        true
    } else if b.len() == 0 {
        false
    } else if a[0] != b[0] {
        a[0] < b[0]
    } else {
        name_le(a.drop_first(), b.drop_first())
    }
}

/// The order of a directory listing: directories first, then by name.
pub open spec fn entry_le(a: DirEntryInfo, b: DirEntryInfo) -> bool {
    (a.is_dir && !b.is_dir) || (a.is_dir == b.is_dir && name_le(a.name@, b.name@))
}

/// The entries are in directory-listing order.
pub open spec fn entries_sorted(s: Seq<DirEntryInfo>) -> bool {
    forall|i: int, j: int| 0 <= i < j < s.len() ==> entry_le(#[trigger] s[i], #[trigger] s[j])
}

/// Names the tree does not show: hidden entries (starting with `.`) and the
/// `target` and `node_modules` directories.
pub open spec fn hidden_name(name: Seq<char>) -> bool {
    (name.len() > 0 && name[0] == '.') || name == "target"@ || name == "node_modules"@
}

/// The entries whose names are shown, in their original order.
pub open spec fn shown(s: Seq<DirEntryInfo>) -> Seq<DirEntryInfo> {
    s.filter(shown_pred())
}

/// An entry is shown when its name is not hidden.
pub open spec fn shown_pred() -> spec_fn(DirEntryInfo) -> bool {
    |e: DirEntryInfo| !hidden_name(e.name@)
}

/// The entries with the same kind and name as `x`.
pub open spec fn same_key(x: DirEntryInfo) -> spec_fn(DirEntryInfo) -> bool {
    |e: DirEntryInfo| e.is_dir == x.is_dir && e.name@ == x.name@
}

/// Inserting `e` at `p`, where nothing from `p` on satisfies `q`, adds `e`
/// at the end of what satisfies `q`.
pub proof fn lemma_filter_insert(
    s: Seq<DirEntryInfo>,
    p: int,
    e: DirEntryInfo,
    q: spec_fn(DirEntryInfo) -> bool,
)
    requires
        0 <= p <= s.len(),
        q(e) ==> forall|k: int| p <= k < s.len() ==> !q(#[trigger] s[k]),
    ensures
        s.insert(p, e).filter(q) == if q(e) {
            s.filter(q).push(e)
        } else {
            s.filter(q)
        },
    decreases s.len(),
{
    if p == s.len() {
        assert(s.insert(p, e) =~= s.push(e));
        s.lemma_filter_push(e, q);
    } else {
        let t = s.drop_last();
        let l = s.last();
        assert(s =~= t.push(l));
        assert(s.insert(p, e) =~= t.insert(p, e).push(l));
        lemma_filter_insert(t, p, e, q);
        t.insert(p, e).lemma_filter_push(l, q);
        t.lemma_filter_push(l, q);
        if q(e) {
            assert(s[s.len() - 1] == l);
        }
    }
}

/// Every name comes no later than itself.
pub proof fn lemma_name_le_reflexive(a: Seq<char>)
    ensures
        name_le(a, a),
    decreases a.len(),
{
    if a.len() > 0 {
        lemma_name_le_reflexive(a.drop_first());
    }
}

/// Any two names are ordered one way or the other.
pub proof fn lemma_name_le_total(a: Seq<char>, b: Seq<char>)
    ensures
        name_le(a, b) || name_le(b, a),
    decreases a.len(),
{
    if a.len() > 0 && b.len() > 0 {
        if a[0] == b[0] {
            lemma_name_le_total(a.drop_first(), b.drop_first());
        }

    }
}

/// The order of names is transitive.
pub proof fn lemma_name_le_transitive(a: Seq<char>, b: Seq<char>, c: Seq<char>)
    requires
        name_le(a, b),
        name_le(b, c),
    ensures
        name_le(a, c),
    decreases a.len(),
{
    if a.len() > 0 && b.len() > 0 && c.len() > 0 && a[0] == b[0] && b[0] == c[0] {
        lemma_name_le_transitive(a.drop_first(), b.drop_first(), c.drop_first());
    }
}

/// Names are ordered by their first differing char, by code point: with a
/// common prefix `p`, `p + [x] + s` comes strictly before `p + [y] + t`
/// whenever `x < y`, whatever follows.
pub proof fn lemma_name_le_first_difference(p: Seq<char>, x: char, y: char, s: Seq<char>, t: Seq<char>)
    requires
        x < y,
    ensures
        name_le(p + seq![x] + s, p + seq![y] + t),
        !name_le(p + seq![y] + t, p + seq![x] + s),
    decreases p.len(),
{
    let a = p + seq![x] + s;
    let b = p + seq![y] + t;
    if p.len() == 0 {
        assert(a[0] == x);
        assert(b[0] == y);
    } else {
        assert(a[0] == p[0]);
        assert(b[0] == p[0]);
        assert(a.drop_first() =~= p.drop_first() + seq![x] + s);
        assert(b.drop_first() =~= p.drop_first() + seq![y] + t);
        lemma_name_le_first_difference(p.drop_first(), x, y, s, t);
    }
}

/// A name comes before every longer name that it begins, and not after it.
pub proof fn lemma_name_le_prefix(p: Seq<char>, s: Seq<char>)
    requires
        s.len() > 0,
    ensures
        name_le(p, p + s),
        !name_le(p + s, p),
    decreases p.len(),
{
    if p.len() > 0 {
        assert((p + s)[0] == p[0]);
        assert((p + s).drop_first() =~= p.drop_first() + s);
        lemma_name_le_prefix(p.drop_first(), s);
    }
}

/// The listing order is total.
pub proof fn lemma_entry_le_total(a: DirEntryInfo, b: DirEntryInfo)
    ensures
        entry_le(a, b) || entry_le(b, a),
{
    lemma_name_le_total(a.name@, b.name@);
}

/// The listing order is transitive.
pub proof fn lemma_entry_le_transitive(a: DirEntryInfo, b: DirEntryInfo, c: DirEntryInfo)
    requires
        entry_le(a, b),
        entry_le(b, c),
    ensures
        entry_le(a, c),
{
    if a.is_dir == b.is_dir && b.is_dir == c.is_dir {
        lemma_name_le_transitive(a.name@, b.name@, c.name@);
    }
}

/// Whether the tree hides an entry of this name.
pub fn is_hidden_name(name: &str) -> (r: bool)
    ensures
        r == hidden_name(name@),
{
    let cs = chars_of(name);
    (cs.len() > 0 && cs[0] == '.') || same_text(name, "target") || same_text(name, "node_modules")
}

/// Whether `a` comes no later than `b` in the order of names.
fn name_le_exec(a: &Vec<char>, b: &Vec<char>) -> (r: bool)
    ensures
        r == name_le(a@, b@),
{
    let mut i: usize = 0;
    assert(a@.skip(0) =~= a@);
    assert(b@.skip(0) =~= b@);
    while i < a.len() && i < b.len() && a[i] == b[i]
        invariant
            i <= a@.len(),
            i <= b@.len(),
            name_le(a@, b@) == name_le(a@.skip(i as int), b@.skip(i as int)),
        decreases a@.len() - i,
    {
        assert(a@.skip(i as int).drop_first() =~= a@.skip(i + 1));
        assert(b@.skip(i as int).drop_first() =~= b@.skip(i + 1));
        i += 1;
    }
    if i == a.len() {
        true
    } else if i == b.len() {
        false
    } else {
        assert(a@.skip(i as int)[0] == a@[i as int]);
        assert(b@.skip(i as int)[0] == b@[i as int]);
        a[i] < b[i]
    }
}

/// Whether `a` comes no later than `b` in the listing order.
fn entry_le_exec(a: &DirEntryInfo, b: &DirEntryInfo) -> (r: bool)
    ensures
        r == entry_le(*a, *b),
{
    if a.is_dir != b.is_dir {
        a.is_dir
    } else {
        let x = chars_of(a.name.as_str());
        let y = chars_of(b.name.as_str());
        name_le_exec(&x, &y)
    }
}

/// The entries of a directory that the tree shows, directories first, then
/// by name; entries that compare equal (same kind and name) keep their
/// order (the sort is stable).
pub fn visible_entries(entries: Vec<DirEntryInfo>) -> (r: Vec<DirEntryInfo>)
    ensures
        entries_sorted(r@),
        r@.to_multiset() == shown(entries@).to_multiset(),
        forall|x: DirEntryInfo| #[trigger] r@.filter(same_key(x)) == shown(entries@).filter(same_key(x)),
{
    broadcast use vstd::seq_lib::group_to_multiset_ensures;

    let ghost input = entries@;
    let mut rest = entries;
    let mut out: Vec<DirEntryInfo> = Vec::new();
    let n = rest.len();
    let mut i: usize = 0;
    while i < n
        invariant
            n == input.len(),
            i <= n,
            rest@ == input.skip(i as int),
            entries_sorted(out@),
            out@.to_multiset() == shown(input.take(i as int)).to_multiset(),
            forall|x: DirEntryInfo| #[trigger] out@.filter(same_key(x)) == shown(input.take(i as int)).filter(same_key(x)),
        decreases n - i,
    {
        let e = rest.remove(0);
        assert(e == input[i as int]);
        assert(input.take(i + 1) =~= input.take(i as int).push(e));
        let hide = is_hidden_name(e.name.as_str());
        proof {
            input.take(i as int).lemma_filter_push(e, shown_pred());
        }
        if !hide {
            let mut p: usize = 0;
            while p < out.len() && entry_le_exec(&out[p], &e)
                invariant
                    p <= out@.len(),
                    forall|k: int| 0 <= k < p ==> entry_le(#[trigger] out@[k], e),
                decreases out@.len() - p,
            {
                p += 1;
            }
            let ghost before = out@;
            out.insert(p, e);
            assert(out@ == before.insert(p as int, e));
            proof {
                vstd::seq_lib::to_multiset_insert(before, p as int, e);
                vstd::seq_lib::to_multiset_build(shown(input.take(i as int)), e);
            }
            assert(out@.to_multiset() == before.to_multiset().insert(e));
            assert(shown(input.take(i + 1)) == shown(input.take(i as int)).push(e));
            proof {
                assert forall|a: int, b: int| 0 <= a < b < out@.len() implies entry_le(
                    #[trigger] out@[a],
                    #[trigger] out@[b],
                ) by {
                    if b < p {
                        assert(out@[a] == before[a] && out@[b] == before[b]);
                    } else if b == p {
                        assert(out@[a] == before[a]);
                    } else if a < p {
                        assert(out@[a] == before[a] && out@[b] == before[b - 1]);
                    } else if a == p {
                        // e is strictly before before[p]'s successors
                        lemma_entry_le_total(before[p as int], e);
                        if b - 1 > p {
                            lemma_entry_le_transitive(e, before[p as int], before[b - 1]);
                        }
                        assert(out@[b] == before[b - 1]);
                    } else {
                        assert(out@[a] == before[a - 1] && out@[b] == before[b - 1]);
                    }
                }
                assert forall|x: DirEntryInfo| #[trigger] out@.filter(same_key(x)) == shown(
                    input.take(i + 1),
                ).filter(same_key(x)) by {
                    let q = same_key(x);
                    shown(input.take(i as int)).lemma_filter_push(e, q);
                    if q(e) {
                        assert forall|k: int| p <= k < before.len() implies !q(#[trigger] before[k]) by {
                            if q(before[k]) {
                                lemma_name_le_reflexive(e.name@);
                                assert(entry_le(before[k], e));
                                if k > p {
                                    assert(entry_le(before[p as int], before[k]));
                                    lemma_entry_le_transitive(before[p as int], before[k], e);
                                }
                            }
                        }
                    }
                    lemma_filter_insert(before, p as int, e, q);
                }
            }
        } else {
            assert(shown(input.take(i + 1)) == shown(input.take(i as int)));
        }
        i += 1;
    }
    assert(input.take(n as int) =~= input);
    out
}

/// A file node: disabled unless the file is Markdown.
pub fn file_node(path: String, name: String) -> (r: DirNode)
    ensures
        r.path == path,
        r.name == name,
        !r.is_dir,
        r.disabled == !is_markdown(path@),
        r.children@.len() == 0,
{
    let md = crate::documents::is_markdown_path(path.as_str());
    DirNode { path, name, is_dir: false, disabled: !md, children: Vec::new() }
}

/// A directory node with the given children (never disabled).
pub fn dir_node(path: String, name: String, children: Vec<DirNode>) -> (r: DirNode)
    ensures
        r.path == path,
        r.name == name,
        r.is_dir,
        !r.disabled,
        r.children == children,
{
    DirNode { path, name, is_dir: true, disabled: false, children }
}

/// A name that a node may be renamed to: not empty, not `.` or `..`, and
/// without a path separator.
pub open spec fn valid_new_name(n: Seq<char>) -> bool {
    &&& n.len() > 0
    &&& n != "."@
    &&& n != ".."@
    &&& !n.contains('/')
    &&& !n.contains('\\')
}

/// The path that renaming `old` to `name` gives: `name` in the directory of `old`.
pub open spec fn rename_target(old: Seq<char>, name: Seq<char>) -> Seq<char> {
    match path_parent(old) {
        Some(dir) => path_join(dir, name),
        None => name,
    }
}

/// What a rename request comes to.
pub enum RenamePlan {
    /// The new name is empty or not a valid name: the rename is dropped silently.
    Cancel,
    /// The new path is the old one: nothing to do.
    Unchanged,
    /// Rename to `path`, whose final component is `name`.
    Rename { name: String, path: String },
}

/// The view of a rename plan.
pub open spec fn plan_view(r: RenamePlan) -> Option<Option<(Seq<char>, Seq<char>)>> {
    match r {
        RenamePlan::Cancel => None,
        RenamePlan::Unchanged => Some(None),
        RenamePlan::Rename { name, path } => Some(Some((name@, path@))),
    }
}

/// The plan for renaming the node at `old` to what the user typed: the
/// typed text is trimmed; an invalid name cancels; a name whose path equals
/// `old` (as std compares paths) changes nothing; else the node moves to its
/// new path.
pub open spec fn spec_plan_rename(old: Seq<char>, input: Seq<char>) -> Option<
    Option<(Seq<char>, Seq<char>)>,
> {
    let name = trim(input);
    if !valid_new_name(name) {
        None
    } else if same_path(rename_target(old, name), old) {
        Some(None)
    } else {
        Some(Some((name, rename_target(old, name))))
    }
}

/// A typed name that, once trimmed, is not empty, not `.` or `..`, and has
/// no `/` or `\\`, is accepted whatever else it holds (inner spaces
/// included): the plan renames to that name in the directory of `old`,
/// unless that path equals `old`, in which case nothing changes.
pub proof fn lemma_plan_rename_accepts(old: Seq<char>, input: Seq<char>)
    requires
        trim(input).len() > 0,
        trim(input) != seq!['.'],
        trim(input) != seq!['.', '.'],
        forall|k: int| 0 <= k < trim(input).len() ==> #[trigger] trim(input)[k] != '/' && trim(input)[k] != '\\',
    ensures
        ({
            let name = trim(input);
            let target = match path_parent(old) {
                Some(dir) => path_join(dir, name),
                None => name,
            };
            spec_plan_rename(old, input) == if same_path(target, old) {
                Some(None)
            } else {
                Some(Some((name, target)))
            }
        }),
{
    let name = trim(input);
    reveal_strlit(".");
    reveal_strlit("..");
    assert("."@ =~= seq!['.']);
    assert(".."@ =~= seq!['.', '.']);
    assert(!name.contains('/'));
    assert(!name.contains('\\'));
}

/// A typed name that, once trimmed, is empty, `.`, `..`, or holds a `/` or
/// a `\\`, cancels the rename.
pub proof fn lemma_plan_rename_refuses(old: Seq<char>, input: Seq<char>)
    requires
        trim(input).len() == 0 || trim(input) == seq!['.'] || trim(input) == seq!['.', '.']
            || trim(input).contains('/') || trim(input).contains('\\'),
    ensures
        spec_plan_rename(old, input) is None,
{
    reveal_strlit(".");
    reveal_strlit("..");
    assert("."@ =~= seq!['.']);
    assert(".."@ =~= seq!['.', '.']);
}

/// Whether `c` occurs in `cs`.
fn contains_char(cs: &Vec<char>, c: char) -> (r: bool)
    ensures
        r == cs@.contains(c),
{
    let mut i: usize = 0;
    while i < cs.len()
        invariant
            i <= cs@.len(),
            forall|k: int| 0 <= k < i ==> cs@[k] != c,
        decreases cs@.len() - i,
    {
        if cs[i] == c {
            assert(cs@[i as int] == c);
            return true;
        }
        i += 1;
    }
    false
}

/// Checks a rename of the node at `old` to the typed text `input`, and
/// gives the new name and path when there is a rename to carry out.
pub fn plan_rename(old: &str, input: &str) -> (r: RenamePlan)
    ensures
        plan_view(r) == spec_plan_rename(old@, input@),
{
    let cs = chars_of(input);
    let n = cs.len();
    assert(cs@.subrange(0, n as int) =~= input@);
    let a = trim_start_at(&cs, 0, n);
    let b = trim_end_at(&cs, a, n);
    let name = string_of(&cs, a, b);
    let nc = chars_of(name.as_str());
    if nc.len() == 0 || same_text(name.as_str(), ".") || same_text(name.as_str(), "..") || contains_char(&nc, '/')
        || contains_char(&nc, '\\') {
        return RenamePlan::Cancel;
    }
    let path = match parent(old) {
        Some(dir) => join(dir.as_str(), name.as_str()),
        None => name.clone(),
    };
    if paths_equal(path.as_str(), old) {
        return RenamePlan::Unchanged;
    }
    RenamePlan::Rename { name, path }
}

/// A node found by path has that path, and a path held by a top-level node
/// is always found.
pub proof fn lemma_find_in_path(nodes: Seq<DirNode>, id: Seq<char>)
    ensures
        find_in(nodes, id) matches Some(n) ==> n.path@ == id,
        (exists|k: int| 0 <= k < nodes.len() && (#[trigger] nodes[k]).path@ == id) ==> find_in(
            nodes,
            id,
        ) is Some,
    decreases nodes,
{
    if nodes.len() > 0 {
        assert(decreases_to!(nodes => nodes[0]));
        assert(decreases_to!(nodes[0] => nodes[0].children));
        assert(decreases_to!(nodes[0].children => nodes[0].children@));
        lemma_find_in_path(nodes[0].children@, id);
        lemma_find_in_path(nodes.drop_first(), id);
        if exists|k: int| 0 <= k < nodes.len() && (#[trigger] nodes[k]).path@ == id {
            let k = choose|k: int| 0 <= k < nodes.len() && (#[trigger] nodes[k]).path@ == id;
            if k > 0 {
                assert(nodes.drop_first()[k - 1] == nodes[k]);
            }
        }
    }
}

/// The entries a directory listing shows are entries of the directory whose
/// names are not hidden.
pub proof fn lemma_visible_entries_shown(entries: Seq<DirEntryInfo>, out: Seq<DirEntryInfo>)
    requires
        out.to_multiset() == shown(entries).to_multiset(),
    ensures
        forall|k: int|
            0 <= k < out.len() ==> !hidden_name((#[trigger] out[k]).name@) && entries.contains(out[k]),
{
    broadcast use vstd::seq_lib::group_to_multiset_ensures;

    assert forall|k: int| 0 <= k < out.len() implies !hidden_name((#[trigger] out[k]).name@)
        && entries.contains(out[k]) by {
        let e = out[k];
        assert(out.contains(e));
        assert(out.to_multiset().count(e) > 0);
        assert(shown(entries).contains(e));
        entries.lemma_filter_contains_rev(shown_pred(), e);
    }
}

} // verus!
