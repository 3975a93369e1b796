//! The file tree: one node per file or directory, each node owning its
//! children. A whole volume is one tree whose root carries the volume's
//! mount path as its name.

pub mod codec;
pub mod index;

use vstd::prelude::*;

use crate::text::push_char;

verus! {

/// Characters that may not occur in a file name.
pub open spec fn spec_valid_name_char(c: char) -> bool {
    !(c == '\\' || c == '/' || c == ':' || c == '*' || c == '?' || c == '"' || c == '<' || c == '>'
        || c == '|')
}

/// A non-empty run of characters that are all allowed in file names.
pub open spec fn spec_valid_name(s: Seq<char>) -> bool {
    s.len() > 0 && forall|i: int| 0 <= i < s.len() ==> spec_valid_name_char(s[i])
}

pub trait IsValidWindowsFileName {
    spec fn spec_is_valid_windows_file_name(&self) -> bool;

    fn is_valid_windows_file_name(&self) -> (r: bool)
        ensures
            r == self.spec_is_valid_windows_file_name(),
    ;
}

impl IsValidWindowsFileName for char {
    open spec fn spec_is_valid_windows_file_name(&self) -> bool {
        spec_valid_name_char(*self)
    }

    fn is_valid_windows_file_name(&self) -> (r: bool) {
        match *self {
            '\\' | '/' | ':' | '*' | '?' | '"' | '<' | '>' | '|' => false,
            _ => true,
        }
    }
}

impl IsValidWindowsFileName for str {
    open spec fn spec_is_valid_windows_file_name(&self) -> bool {
        spec_valid_name(self@)
    }

    fn is_valid_windows_file_name(&self) -> (r: bool) {
        let n = self.unicode_len();
        if n == 0 {
            return false;
        }
        let mut i: usize = 0;
        while i < n
            invariant
                0 <= i <= n,
                n == self@.len(),
                forall|k: int| 0 <= k < i ==> spec_valid_name_char(self@[k]),
            decreases n - i,
        {
            if !self.get_char(i).is_valid_windows_file_name() {
                return false;
            }
            i += 1;
        }
        true
    }
}

/// One node of the tree: a display name (never a path) and the node's
/// children in discovery order.
#[derive(Debug, PartialEq)]
pub struct File {
    pub name: String,
    pub children: Vec<File>,
}

/// The mathematical shape of a [`File`]: the same tree over sequences.
pub struct FileModel {
    pub name: Seq<char>,
    pub children: Seq<FileModel>,
}

pub open spec fn files_model(s: Seq<File>) -> Seq<FileModel>
    decreases s,
{
    if s.len() == 0 {
        Seq::empty()
    } else {
        seq![file_model(s[0])] + files_model(s.drop_first())
    }
}

pub open spec fn file_model(f: File) -> FileModel
    decreases f,
{
    FileModel { name: f.name@, children: files_model(f.children@) }
}

impl View for File {
    type V = FileModel;

    open spec fn view(&self) -> FileModel {
        file_model(*self)
    }
}

/// Every node of this subtree, itself included, carries a display name,
/// never a path: non-empty and free of path separators (and of the other
/// characters Windows forbids in file names).
pub open spec fn spec_node_names_ok(m: FileModel) -> bool
    decreases m,
{
    spec_valid_name(m.name) && spec_forest_names_ok(m.children)
}

/// [`spec_node_names_ok`] over every tree of a forest. Of a whole volume
/// tree this is stated of the root's children: the root itself carries
/// the volume's mount path as its name, which is no display name.
pub open spec fn spec_forest_names_ok(s: Seq<FileModel>) -> bool
    decreases s,
{
    forall|i: int| 0 <= i < s.len() ==> spec_node_names_ok(#[trigger] s[i])
}

/// A child's full path: its parent's path, a separator unless one is
/// already there, then the child's name.
pub open spec fn spec_join(base: Seq<char>, name: Seq<char>) -> Seq<char> {
    if base.len() > 0 && base.last() == '\\' {
        base + name
    } else {
        base + seq!['\\'] + name
    }
}

/// One visited node of a traversal: its display name, its full path, and
/// whether it has no children.
pub struct EntryModel {
    pub name: Seq<char>,
    pub path: Seq<char>,
    pub leaf: bool,
}

/// The depth-first pre-order walk of a forest, each subtree in stored
/// order under the path accumulated so far.
pub open spec fn spec_preorder_forest(children: Seq<FileModel>, base: Seq<char>) -> Seq<EntryModel>
    decreases children,
{
    if children.len() == 0 {
        Seq::empty()
    } else {
        spec_preorder_node(children[0], base) + spec_preorder_forest(children.drop_first(), base)
    }
}

pub open spec fn spec_preorder_node(n: FileModel, base: Seq<char>) -> Seq<EntryModel>
    decreases n,
{
    seq![
        EntryModel {
            name: n.name,
            path: spec_join(base, n.name),
            leaf: n.children.len() == 0,
        },
    ] + spec_preorder_forest(n.children, spec_join(base, n.name))
}

/// Walking a forest split in two walks both halves in order.
pub proof fn lemma_preorder_forest_concat(a: Seq<FileModel>, b: Seq<FileModel>, base: Seq<char>)
    ensures
        spec_preorder_forest(a + b, base) == spec_preorder_forest(a, base)
            + spec_preorder_forest(b, base),
    decreases a.len(),
{
    if a.len() == 0 {
        assert(a + b =~= b);
        assert(spec_preorder_forest(a, base) =~= Seq::empty());
    } else {
        lemma_preorder_forest_concat(a.drop_first(), b, base);
        assert((a + b).drop_first() =~= a.drop_first() + b);
        assert((a + b)[0] == a[0]);
        assert(spec_preorder_forest(a + b, base) =~= spec_preorder_forest(a, base)
            + spec_preorder_forest(b, base));
    }
}

/// Walking a forest of one tree walks just that tree.
pub proof fn lemma_preorder_forest_single(x: FileModel, base: Seq<char>)
    ensures
        spec_preorder_forest(seq![x], base) == spec_preorder_node(x, base),
{
    assert(seq![x].drop_first() =~= Seq::<FileModel>::empty());
    assert(spec_preorder_forest(Seq::<FileModel>::empty(), base) =~= Seq::<EntryModel>::empty());
    assert(seq![x][0] == x);
    assert(spec_preorder_forest(seq![x], base) =~= spec_preorder_node(x, base));
}

/// One visited node, in executable form.
#[derive(Debug, PartialEq)]
pub struct FileEntry {
    pub name: String,
    pub path: String,
    pub is_leaf: bool,
}

impl View for FileEntry {
    type V = EntryModel;

    open spec fn view(&self) -> EntryModel {
        EntryModel { name: self.name@, path: self.path@, leaf: self.is_leaf }
    }
}

pub open spec fn entries_view(s: Seq<FileEntry>) -> Seq<EntryModel> {
    s.map_values(|e: FileEntry| e@)
}

/// Appends a child's name to its parent's path.
pub fn join_path(base: &String, name: &String) -> (r: String)
    ensures
        r@ == spec_join(base@, name@),
{
    let bl = base.as_str().unicode_len();
    let mut s = base.clone();
    if bl == 0 || base.as_str().get_char(bl - 1) != '\\' {
        push_char(&mut s, '\\');
        proof {
            assert(s@ =~= base@ + seq!['\\']);
        }
    }
    let r = s.concat(name.as_str());
    proof {
        assert(r@ =~= spec_join(base@, name@));
    }
    r
}

/// Pushes the pre-order walk of `f`'s subtree, rooted under `base`, onto
/// `out`.
#[verifier::loop_isolation(false)]
fn collect_entries(f: &File, base: &String, out: &mut Vec<FileEntry>)
    ensures
        entries_view(final(out)@) == entries_view(old(out)@) + spec_preorder_node(f@, base@),
    decreases *f,
{
    let path = join_path(base, &f.name);
    let is_leaf = f.children.len() == 0;
    out.push(FileEntry { name: f.name.clone(), path: path.clone(), is_leaf });
    let ghost after_self = out@;
    proof {
        lemma_files_model(f.children@);
        assert(entries_view(after_self) =~= entries_view(old(out)@) + seq![
            EntryModel { name: f@.name, path: spec_join(base@, f@.name), leaf: f@.children.len() == 0 },
        ]);
        assert(spec_preorder_forest(f@.children.take(0), path@) =~= Seq::empty());
        assert(f@.children.take(0) =~= Seq::<FileModel>::empty());
    }
    let mut i: usize = 0;
    while i < f.children.len()
        invariant
            0 <= i <= f.children.len(),
            entries_view(out@) == entries_view(after_self) + spec_preorder_forest(
                f@.children.take(i as int),
                path@,
            ),
        decreases f.children.len() - i,
    {
        collect_entries(&f.children[i], &path, out);
        proof {
            assert(f@.children.take(i + 1) =~= f@.children.take(i as int) + seq![f@.children[i as int]]);
            lemma_preorder_forest_concat(
                f@.children.take(i as int),
                seq![f@.children[i as int]],
                path@,
            );
            lemma_preorder_forest_single(f@.children[i as int], path@);
            assert(file_model(f.children@[i as int]) == f@.children[i as int]);
        }
        i += 1;
    }
    proof {
        assert(f@.children.take(f.children@.len() as int) =~= f@.children);
        assert(entries_view(out@) =~= entries_view(old(out)@) + spec_preorder_node(f@, base@));
    }
}

/// Walks a tree's descendants depth first, handing out one entry per
/// visited node; the root itself is not an entry, its name only seeds the
/// paths.
pub struct FileIterator {
    entries: Vec<FileEntry>,
    pos: usize,
}

impl FileIterator {
    /// The entries this iterator walks, in order.
    pub closed spec fn entries_seq(&self) -> Seq<EntryModel> {
        entries_view(self.entries@)
    }

    pub closed spec fn spec_pos(&self) -> int {
        self.pos as int
    }

    pub open spec fn wf(&self) -> bool {
        0 <= self.spec_pos() <= self.entries_seq().len()
    }

    pub fn new(root: &File) -> (r: Self)
        ensures
            r.entries_seq() == spec_preorder_forest(root@.children, root@.name),
            r.spec_pos() == 0,
            r.wf(),
    {
        let mut out: Vec<FileEntry> = Vec::new();
        proof {
            lemma_files_model(root.children@);
            assert(entries_view(out@) =~= Seq::empty());
            assert(root@.children.take(0) =~= Seq::<FileModel>::empty());
        }
        let mut i: usize = 0;
        while i < root.children.len()
            invariant
                0 <= i <= root.children@.len(),
                entries_view(out@) == spec_preorder_forest(
                    root@.children.take(i as int),
                    root@.name,
                ),
                root@ == file_model(*root),
            decreases root.children@.len() - i,
        {
            proof {
                lemma_files_model(root.children@);
            }
            collect_entries(&root.children[i], &root.name, &mut out);
            proof {
                assert(root@.children.take(i + 1) =~= root@.children.take(i as int) + seq![
                    root@.children[i as int],
                ]);
                lemma_preorder_forest_concat(
                    root@.children.take(i as int),
                    seq![root@.children[i as int]],
                    root@.name,
                );
                lemma_preorder_forest_single(root@.children[i as int], root@.name);
            }
            i += 1;
        }
        proof {
            assert(root@.children.take(root.children@.len() as int) =~= root@.children);
        }
        FileIterator { entries: out, pos: 0 }
    }

    /// Hands over the whole walk as one vector of entries.
    pub fn into_entries(self) -> (r: Vec<FileEntry>)
        ensures
            entries_view(r@) == self.entries_seq(),
    {
        self.entries
    }

    /// The next entry of the walk, or nothing once every node was visited.
    pub fn next(&mut self) -> (r: Option<FileEntry>)
        requires
            old(self).wf(),
        ensures
            final(self).entries_seq() == old(self).entries_seq(),
            final(self).wf(),
            match r {
                Some(e) => old(self).spec_pos() < old(self).entries_seq().len() && e@ == old(
                    self,
                ).entries_seq()[old(self).spec_pos()] && final(self).spec_pos() == old(
                    self,
                ).spec_pos() + 1,
                None => old(self).spec_pos() == old(self).entries_seq().len() && *final(self)
                    == *old(self),
            },
    {
        if self.pos < self.entries.len() {
            let e = &self.entries[self.pos];
            let r = FileEntry { name: e.name.clone(), path: e.path.clone(), is_leaf: e.is_leaf };
            self.pos += 1;
            Some(r)
        } else {
            None
        }
    }
}

impl File {
    /// A depth-first walk over this tree's descendants.
    pub fn iter(&self) -> (r: FileIterator)
        ensures
            r.entries_seq() == spec_preorder_forest(self@.children, self@.name),
            r.spec_pos() == 0,
            r.wf(),
    {
        FileIterator::new(self)
    }
}

pub proof fn lemma_files_model(s: Seq<File>)
    ensures
        files_model(s).len() == s.len(),
        forall|i: int| 0 <= i < s.len() ==> files_model(s)[i] == file_model(s[i]),
    decreases s.len(),
{
    if s.len() > 0 {
        lemma_files_model(s.drop_first());
        assert forall|i: int| 0 <= i < s.len() implies files_model(s)[i] == file_model(s[i]) by {
            if i > 0 {
                assert(s.drop_first()[i - 1] == s[i]);
            }
        }
    }
}

} // verus!
