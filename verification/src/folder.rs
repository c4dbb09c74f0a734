//! Folder trees: the flat ordered file list of an archive, split on `/` into
//! a tree of exclusively-owned folders and leaf files.
use crate::{Sarc, SarcFile};
use vstd::prelude::*;
use vstd::string::{StrSliceExecFns, StringExecFns};

verus! {

/// A folder of the tree: its simple name, its root-relative path, and its
/// ordered children. Sibling folders keep first-seen order.
pub struct SarcFolder {
    pub name: String,
    pub full_name: String,
    pub folders: Vec<Box<SarcFolder>>,
    pub files: Vec<SarcFile>,
}

impl Default for SarcFolder {
    /// The empty root folder.
    fn default() -> (r: Self)
        ensures
            r.name@.len() == 0,
            r.full_name@.len() == 0,
            r.folders@.len() == 0,
            r.files@.len() == 0,
    {
        SarcFolder { name: String::new(), full_name: String::new(), folders: Vec::new(), files: Vec::new() }
    }
}

/// Number of leaf files in the whole tree under a folder.
pub open spec fn leaf_count(f: SarcFolder) -> nat
    decreases f,
{
    f.files@.len() + child_leaf_count(f.folders@)
}

/// Number of leaf files under an ordered list of child folders.
pub open spec fn child_leaf_count(s: Seq<Box<SarcFolder>>) -> nat
    decreases s,
{
    if s.len() == 0 {
        0
    } else {
        child_leaf_count(s.drop_last()) + leaf_count(*s.last())
    }
}

/// The path law of one child: its root-relative path is its parent's path
/// and its own name joined by `/`, with no leading separator at the root.
pub open spec fn child_name_ok(parent_full: Seq<char>, c: SarcFolder) -> bool {
    c.full_name@ == if parent_full.len() == 0 {
        c.name@
    } else {
        parent_full + seq!['/'] + c.name@
    }
}

/// A well-formed tree: every folder's `full_name` equals its parent's
/// `full_name` joined with its `name` by `/` (no leading separator at the
/// root), and no leaf file's simple name holds a `/`.
pub open spec fn folder_wf(f: SarcFolder) -> bool
    decreases f,
{
    &&& forall|i: int|
        0 <= i < f.folders@.len() ==> child_name_ok(f.full_name@, *(#[trigger] f.folders@[i]))
            && folder_wf(*f.folders@[i])
    &&& forall|i: int| 0 <= i < f.files@.len() ==> !(#[trigger] f.files@[i]).name@.contains('/')
}

/// The root-relative path of a child named `x` under a parent whose own
/// root-relative path is `p`: joined by `/`, with no leading separator at
/// the root.
pub open spec fn join_path(p: Seq<char>, x: Seq<char>) -> Seq<char> {
    if p.len() == 0 {
        x
    } else {
        p + seq!['/'] + x
    }
}

/// Index of the first `/` at or after `k` in a name, or the name's length
/// when there is none.
pub open spec fn first_slash(name: Seq<char>, k: int) -> int
    decreases name.len() - k,
{
    if k < 0 || k >= name.len() {
        name.len() as int
    } else if name[k] == '/' {
        k
    } else {
        first_slash(name, k + 1)
    }
}

/// `first_slash` is the position a forward scan for `/` stops at.
pub proof fn lemma_first_slash(name: Seq<char>, start: int, q: int)
    requires
        0 <= start <= q <= name.len(),
        forall|j: int| start <= j < q ==> name[j] != '/',
        q < name.len() ==> name[q] == '/',
    ensures
        first_slash(name, start) == q,
    decreases q - start,
{
    if start < q {
        lemma_first_slash(name, start + 1, q);
    }
}

/// `first_slash` stays between its start and the name's length.
pub proof fn lemma_first_slash_bounds(name: Seq<char>, k: int)
    requires
        0 <= k <= name.len(),
    ensures
        k <= first_slash(name, k) <= name.len(),
    decreases name.len() - k,
{
    if k < name.len() && name[k] != '/' {
        lemma_first_slash_bounds(name, k + 1);
    }
}

/// The root-relative paths of the folders that inserting one name under a
/// parent path passes through: one per proper `/`-prefix of the name.
pub open spec fn inserted_paths(parent_full: Seq<char>, name: Seq<char>) -> Set<Seq<char>>
    decreases name.len(),
    via inserted_paths_decreases
{
    let i = first_slash(name, 0);
    if i == name.len() {
        Set::empty()
    } else {
        let child_full = join_path(parent_full, name.subrange(0, i));
        inserted_paths(child_full, name.subrange(i + 1, name.len() as int)).insert(child_full)
    }
}

#[via_fn]
proof fn inserted_paths_decreases(parent_full: Seq<char>, name: Seq<char>) {
    lemma_first_slash_bounds(name, 0);
}

/// The root-relative paths of every folder anywhere below this one.
pub open spec fn tree_paths(f: SarcFolder) -> Set<Seq<char>>
    decreases f,
{
    children_paths(f.folders@)
}

/// The root-relative paths of the given folders and everything below them.
pub open spec fn children_paths(s: Seq<Box<SarcFolder>>) -> Set<Seq<char>>
    decreases s,
{
    if s.len() == 0 {
        Set::empty()
    } else {
        children_paths(s.drop_last()).union(tree_paths(*s.last()).insert(s.last().full_name@))
    }
}

/// A child's own path is among the children's paths.
proof fn lemma_child_path_member(s: Seq<Box<SarcFolder>>, idx: int)
    requires
        0 <= idx < s.len(),
    ensures
        children_paths(s).contains(s[idx].full_name@),
    decreases s.len(),
{
    if idx < s.len() - 1 {
        lemma_child_path_member(s.drop_last(), idx);
    }
}

/// Appending a child adds its own path and everything below it.
proof fn lemma_children_paths_push(s: Seq<Box<SarcFolder>>, c: Box<SarcFolder>)
    ensures
        children_paths(s.push(c)) == children_paths(s).union(
            tree_paths(*c).insert(c.full_name@),
        ),
{
    assert(s.push(c).drop_last() =~= s);
    assert(s.push(c).last() == c);
}

/// Replacing one child by one with the same path and `d` more paths below it
/// adds exactly `d` to the children's paths.
proof fn lemma_children_paths_update(
    s: Seq<Box<SarcFolder>>,
    idx: int,
    c: Box<SarcFolder>,
    d: Set<Seq<char>>,
)
    requires
        0 <= idx < s.len(),
        c.full_name@ == s[idx].full_name@,
        tree_paths(*c) == tree_paths(*s[idx]).union(d),
    ensures
        children_paths(s.update(idx, c)) == children_paths(s).union(d),
    decreases s.len(),
{
    let t = s.update(idx, c);
    if idx == s.len() - 1 {
        assert(t.drop_last() =~= s.drop_last());
        assert(t.last() == c);
        assert(children_paths(t) =~= children_paths(s).union(d));
    } else {
        assert(t.drop_last() =~= s.drop_last().update(idx, c));
        assert(t.last() == s.last());
        lemma_children_paths_update(s.drop_last(), idx, c, d);
        assert(children_paths(t) =~= children_paths(s).union(d));
    }
}

/// No two sibling folders anywhere in the tree share a name, so each path
/// prefix owns at most one folder.
pub open spec fn sibling_names_unique(f: SarcFolder) -> bool
    decreases f,
{
    &&& forall|p: int, q: int|
        0 <= p < q < f.folders@.len() ==> (#[trigger] f.folders@[p]).name@ != (
        #[trigger] f.folders@[q]).name@
    &&& forall|i: int|
        0 <= i < f.folders@.len() ==> sibling_names_unique(*(#[trigger] f.folders@[i]))
}

/// Appending a child adds its leaves to the count.
proof fn lemma_child_count_push(s: Seq<Box<SarcFolder>>, c: Box<SarcFolder>)
    ensures
        child_leaf_count(s.push(c)) == child_leaf_count(s) + leaf_count(*c),
{
    assert(s.push(c).drop_last() =~= s);
    assert(s.push(c).last() == c);
}

/// Replacing one child replaces exactly its leaves in the count.
proof fn lemma_child_count_update(s: Seq<Box<SarcFolder>>, idx: int, c: Box<SarcFolder>)
    requires
        0 <= idx < s.len(),
    ensures
        child_leaf_count(s.update(idx, c)) == child_leaf_count(s) - leaf_count(*s[idx])
            + leaf_count(*c),
    decreases s.len(),
{
    let t = s.update(idx, c);
    if idx == s.len() - 1 {
        assert(t.drop_last() =~= s.drop_last());
        assert(t.last() == c);
    } else {
        assert(t.drop_last() =~= s.drop_last().update(idx, c));
        assert(t.last() == s.last());
        lemma_child_count_update(s.drop_last(), idx, c);
    }
}

impl SarcFolder {
    /// Inserts one file into the tree: the name is split on each `/`, one
    /// folder per component is found or created in first-seen order, and the
    /// remainder becomes a leaf. Exactly one leaf is added; on a well-formed
    /// tree the folder paths grow by exactly the name's proper `/`-prefixes,
    /// the tree stays well formed with unique sibling names, and this
    /// folder's own names do not change.
    pub fn push(&mut self, file: SarcFile)
        ensures
            folder_wf(*old(self)) ==> folder_wf(*final(self)),
            sibling_names_unique(*old(self)) ==> sibling_names_unique(*final(self)),
            folder_wf(*old(self)) ==> tree_paths(*final(self)) == tree_paths(*old(self)).union(
                inserted_paths(old(self).full_name@, file.name@),
            ),
            leaf_count(*final(self)) == leaf_count(*old(self)) + 1,
            !file.name@.contains('/') ==> final(self).files@ == old(self).files@.push(file)
                && final(self).folders@ == old(self).folders@,
            file.name@.contains('/') ==> final(self).files@ == old(self).files@,
            final(self).name@ == old(self).name@,
            final(self).full_name@ == old(self).full_name@,
        decreases file.name@.len(),
    {
        let ghost name0 = file.name@;
        let n = file.name.as_str().unicode_len();
        let mut slash: usize = 0;
        let mut found = false;
        let mut i: usize = 0;
        while i < n && !found
            invariant
                i <= n,
                n == file.name@.len(),
                !found ==> forall|j: int| 0 <= j < i ==> file.name@[j] != '/',
                found ==> i < n && file.name@[i as int] == '/',
                found ==> slash == i,
                found ==> forall|j: int| 0 <= j < slash ==> file.name@[j] != '/',
            decreases n - i, (if found { 0int } else { 1int }),
        {
            if file.name.as_str().get_char(i) == '/' {
                slash = i;
                found = true;
            } else {
                i = i + 1;
            }
        }

        if found {
            proof {
                assert(file.name@.contains('/')) by {
                    assert(0 <= slash < file.name@.len() && file.name@[slash as int] == '/');
                }
                lemma_first_slash(name0, 0, slash as int);
            }
            let folder_name = String::from_str(file.name.as_str().substring_char(0, slash));
            let rest = String::from_str(file.name.as_str().substring_char(slash + 1, n));
            let mut file = file;
            file.name = rest;
            let ghost head = name0.subrange(0, slash as int);
            let ghost rest0 = name0.subrange(slash as int + 1, name0.len() as int);
            let ghost child_full = join_path(self.full_name@, head);
            proof {
                assert(folder_name@ == head);
                assert(file.name@ == rest0);
                assert(inserted_paths(self.full_name@, name0) == inserted_paths(
                    child_full,
                    rest0,
                ).insert(child_full));
            }

            let len = self.folders.len();
            let mut k: usize = 0;
            let mut idx: usize = len;
            while k < len && idx == len
                invariant
                    k <= len,
                    idx <= len,
                    len == self.folders@.len(),
                    idx == len ==> forall|j: int|
                        0 <= j < k ==> (#[trigger] self.folders@[j]).name@ != folder_name@,
                    idx < len ==> self.folders@[idx as int].name@ == folder_name@,
                decreases len - k,
            {
                if self.folders[k].name == folder_name {
                    idx = k;
                }
                k = k + 1;
            }

            if idx < len {
                let ghost before = self.folders@;
                let mut child: Box<SarcFolder> = self.folders.remove(idx);
                let ghost child0 = *child;
                (&mut *child).push(file);
                let ghost child1 = child;
                self.folders.insert(idx, child);
                proof {
                    assert(self.folders@[idx as int] == child1);
                    assert(self.folders@ =~= before.update(idx as int, child1));
                    lemma_child_count_update(before, idx as int, child1);
                    assert(leaf_count(*child1) == leaf_count(child0) + 1);
                    if folder_wf(*old(self)) {
                        assert(child_name_ok(old(self).full_name@, child0));
                        assert(folder_wf(child0));
                        assert forall|j: int| 0 <= j < self.folders@.len() implies child_name_ok(
                            self.full_name@,
                            *(#[trigger] self.folders@[j]),
                        ) && folder_wf(*self.folders@[j]) by {
                            if j != idx {
                                assert(self.folders@[j] == before[j]);
                            }
                        }
                    }
                    if folder_wf(*old(self)) {
                        assert(child0.name@ == folder_name@);
                        assert(child0.full_name@ == child_full);
                        assert(folder_wf(child0));
                        assert(tree_paths(*child1) == tree_paths(child0).union(
                            inserted_paths(child_full, rest0),
                        ));
                        lemma_children_paths_update(
                            before,
                            idx as int,
                            child1,
                            inserted_paths(child_full, rest0),
                        );
                        lemma_child_path_member(before, idx as int);
                        assert(tree_paths(*self) =~= tree_paths(*old(self)).union(
                            inserted_paths(old(self).full_name@, name0),
                        ));
                    }
                    if sibling_names_unique(*old(self)) {
                        assert(sibling_names_unique(child0));
                        assert(child1.name@ == before[idx as int].name@);
                        assert forall|p: int, q: int|
                            0 <= p < q < self.folders@.len() implies (
                            #[trigger] self.folders@[p]).name@ != (
                            #[trigger] self.folders@[q]).name@ by {
                            assert(before[p].name@ != before[q].name@);
                            if p != idx {
                                assert(self.folders@[p] == before[p]);
                            }
                            if q != idx {
                                assert(self.folders@[q] == before[q]);
                            }
                        }
                        assert forall|j: int|
                            0 <= j < self.folders@.len() implies sibling_names_unique(
                            *(#[trigger] self.folders@[j]),
                        ) by {
                            if j != idx {
                                assert(self.folders@[j] == before[j]);
                            }
                        }
                    }
                }
            } else {
                let mut full_name = self.full_name.clone();
                if !full_name.as_str().is_empty() {
                    full_name.append("/");
                }
                full_name.append(folder_name.as_str());
                proof {
                    reveal_strlit("/");
                    assert("/"@ =~= seq!['/']);
                }
                let mut folder = SarcFolder {
                    name: folder_name,
                    full_name,
                    folders: Vec::new(),
                    files: Vec::new(),
                };
                proof {
                    assert(sibling_names_unique(folder));
                }
                folder.push(file);
                let ghost before = self.folders@;
                let ghost child = folder;
                self.folders.push(Box::new(folder));
                proof {
                    lemma_child_count_push(before, self.folders@.last());
                    lemma_children_paths_push(before, self.folders@.last());
                    if folder_wf(*old(self)) {
                        assert(child.full_name@ == child_full);
                        assert(tree_paths(child) == Set::<Seq<char>>::empty().union(
                            inserted_paths(child_full, rest0),
                        ));
                        assert(tree_paths(*self) =~= tree_paths(*old(self)).union(
                            inserted_paths(old(self).full_name@, name0),
                        ));
                        assert(child_name_ok(self.full_name@, child));
                        assert forall|j: int| 0 <= j < self.folders@.len() implies child_name_ok(
                            self.full_name@,
                            *(#[trigger] self.folders@[j]),
                        ) && folder_wf(*self.folders@[j]) by {
                            if j < before.len() {
                                assert(self.folders@[j] == before[j]);
                            }
                        }
                    }
                    if sibling_names_unique(*old(self)) {
                        assert(child.name@ == folder_name@);
                        assert forall|p: int, q: int|
                            0 <= p < q < self.folders@.len() implies (
                            #[trigger] self.folders@[p]).name@ != (
                            #[trigger] self.folders@[q]).name@ by {
                            if q < before.len() {
                                assert(self.folders@[p] == before[p]);
                                assert(self.folders@[q] == before[q]);
                            } else {
                                assert(self.folders@[p] == before[p]);
                                assert(before[p].name@ != folder_name@);
                            }
                        }
                        assert forall|j: int|
                            0 <= j < self.folders@.len() implies sibling_names_unique(
                            *(#[trigger] self.folders@[j]),
                        ) by {
                            if j < before.len() {
                                assert(self.folders@[j] == before[j]);
                            }
                        }
                    }
                }
            }
        } else {
            proof {
                if file.name@.contains('/') {
                    let j = choose|j: int| 0 <= j < file.name@.len() && file.name@[j] == '/';
                }
                lemma_first_slash(name0, 0, name0.len() as int);
                assert(inserted_paths(self.full_name@, name0) =~= Set::<Seq<char>>::empty());
            }
            self.files.push(file);
            proof {
                assert(tree_paths(*self) =~= tree_paths(*old(self)).union(
                    inserted_paths(old(self).full_name@, name0),
                ));
            }
        }
    }
}

/// The root-relative paths of every folder that assembling the first `i`
/// files of the archive creates: the unique proper `/`-prefixes of their
/// names.
pub open spec fn archive_prefix_paths(files: Seq<SarcFile>, i: int) -> Set<Seq<char>>
    decreases i,
{
    if i <= 0 {
        Set::empty()
    } else {
        archive_prefix_paths(files, i - 1).union(
            inserted_paths(Seq::empty(), files[i - 1].name@),
        )
    }
}

impl Sarc {
    /// Turns the archive's flat ordered file list into a folder tree: a
    /// well-formed tree with exactly one leaf per file of the archive, and
    /// one folder per unique proper `/`-prefix of the files' names.
    pub fn into_folder(self) -> (r: SarcFolder)
        ensures
            folder_wf(r),
            sibling_names_unique(r),
            leaf_count(r) == self.files@.len(),
            tree_paths(r) == archive_prefix_paths(self.files@, self.files@.len() as int),
            r.name@.len() == 0,
            r.full_name@.len() == 0,
    {
        let ghost orig = self.files@;
        let ghost total = self.files@.len();
        let mut folder = SarcFolder::default();
        let mut files = self.files;
        proof {
            assert(folder_wf(folder));
            assert(sibling_names_unique(folder));
            assert(leaf_count(folder) == 0);
            assert(files@ =~= orig.subrange(0, total as int));
        }
        while files.len() > 0
            invariant
                total == orig.len(),
                files@.len() <= total,
                files@ == orig.subrange(total - files@.len(), total as int),
                folder_wf(folder),
                sibling_names_unique(folder),
                leaf_count(folder) == total - files@.len(),
                tree_paths(folder) == archive_prefix_paths(orig, total - files@.len()),
                folder.name@.len() == 0,
                folder.full_name@.len() == 0,
            decreases files@.len(),
        {
            let ghost k = total - files@.len();
            let ghost pre = files@;
            let file = files.remove(0);
            proof {
                assert(file == orig[k as int]);
                assert(files@ =~= orig.subrange(k as int + 1, total as int));
                assert(folder.full_name@ =~= Seq::<char>::empty());
            }
            folder.push(file);
            proof {
                assert(tree_paths(folder) =~= archive_prefix_paths(orig, k as int + 1));
            }
        }
        proof {
            assert(orig.subrange(total as int, total as int).len() == 0);
        }
        folder
    }
}

} // verus!
