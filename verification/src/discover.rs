//! Finding the files that are to be copied.
use vstd::prelude::*;

use crate::order::{item_precedes, is_sorted_order, sorted_order};
use crate::path::{
    file_name_of, lemma_path_order_total, lemma_stripped, path_precedes, path_views, stripped,
    FilePath, PartView,
};

verus! {

/// A file that is to be copied.
#[derive(Debug)]
pub struct FileEntry {
    /// Where the file lies below the source.
    pub relative_path: FilePath,
    pub absolute_path: FilePath,
    pub size: u64,
}

/// The model of a `FileEntry`.
pub struct EntryView {
    pub relative_path: Seq<PartView>,
    pub absolute_path: Seq<PartView>,
    pub size: u64,
}

impl View for FileEntry {
    type V = EntryView;

    open spec fn view(&self) -> EntryView {
        EntryView {
            relative_path: self.relative_path@,
            absolute_path: self.absolute_path@,
            size: self.size,
        }
    }
}

/// The models of a list of files.
pub open spec fn entry_views(entries: Seq<FileEntry>) -> Seq<EntryView> {
    entries.map_values(|entry: FileEntry| entry@)
}

/// The places of a list of files below the source.
pub open spec fn relative_paths(entries: Seq<EntryView>) -> Seq<Seq<PartView>> {
    entries.map_values(|entry: EntryView| entry.relative_path)
}

impl Clone for FileEntry {
    fn clone(&self) -> (other: Self)
        ensures
            other@ == self@,
    {
        FileEntry {
            relative_path: self.relative_path.clone(),
            absolute_path: self.absolute_path.clone(),
            size: self.size,
        }
    }
}

/// What a directory entry is, links not followed.
#[derive(Debug, Clone, Copy, PartialEq, Eq, Structural)]
pub enum EntryKind {
    Symlink,
    Directory,
    File,
    Other,
}

/// What is to be done about a directory entry.
#[derive(Debug, Clone, Copy, PartialEq, Eq, Structural)]
pub enum WalkStep {
    /// Warn that a link is left out.
    SkipSymlink,
    /// List the directory before going on with this one.
    Descend,
    /// Ask for the size of the file.
    Measure,
    /// Nothing: neither a file nor a directory.
    Ignore,
}

/// A walk through a directory tree, depth first.
#[derive(Debug)]
pub struct Walk {
    root: FilePath,
    open: Vec<FilePath>,
    measuring: Option<FilePath>,
    entries: Vec<FileEntry>,
    dirs: Vec<FilePath>,
}

/// The model of a `Walk`: where it started, the directories that are being listed, outermost
/// first, the file whose size is asked for, and what was found.
pub struct WalkView {
    pub root: Seq<PartView>,
    pub open: Seq<Seq<PartView>>,
    pub measuring: Option<Seq<PartView>>,
    pub entries: Seq<EntryView>,
    pub dirs: Seq<Seq<PartView>>,
}

impl View for Walk {
    type V = WalkView;

    closed spec fn view(&self) -> WalkView {
        WalkView {
            root: self.root@,
            open: path_views(self.open@),
            measuring: match self.measuring {
                Some(path) => Some(path@),
                None => None,
            },
            entries: entry_views(self.entries@),
            dirs: path_views(self.dirs@),
        }
    }
}

impl WalkView {
    /// Everything that is being looked at lies below the root.
    pub open spec fn wf(self) -> bool {
        &&& forall|i: int|
            0 <= i < self.open.len() ==> stripped(#[trigger] self.open[i], self.root) is Some
        &&& self.measuring is Some ==> stripped(self.measuring->0, self.root) is Some
    }

    /// The walk at its start.
    pub open spec fn start(root: Seq<PartView>) -> WalkView {
        WalkView {
            root,
            open: seq![root],
            measuring: None,
            entries: Seq::empty(),
            dirs: Seq::empty(),
        }
    }

    /// The path of the entry `name` of the innermost directory.
    pub open spec fn at(self, name: Seq<u8>) -> Seq<PartView> {
        self.open.last().push(PartView::Normal(name))
    }

    /// The walk after the entry `name` of the innermost directory.
    pub open spec fn entered(self, name: Seq<u8>, kind: EntryKind) -> WalkView {
        match kind {
            EntryKind::Symlink | EntryKind::Other => self,
            EntryKind::Directory => WalkView {
                open: self.open.push(self.at(name)),
                dirs: self.dirs.push(stripped(self.at(name), self.root)->0),
                ..self
            },
            EntryKind::File => WalkView { measuring: Some(self.at(name)), ..self },
        }
    }

    /// The walk after the size of a file became known.
    pub open spec fn measured(self, size: u64) -> WalkView {
        WalkView {
            measuring: None,
            entries: self.entries.push(
                EntryView {
                    relative_path: stripped(self.measuring->0, self.root)->0,
                    absolute_path: self.measuring->0,
                    size,
                },
            ),
            ..self
        }
    }

    /// The walk after the end of the innermost directory.
    pub open spec fn exhausted(self) -> WalkView {
        WalkView { open: self.open.drop_last(), ..self }
    }
}

/// What is to be done about an entry of this kind.
pub open spec fn step_for(kind: EntryKind) -> WalkStep {
    match kind {
        EntryKind::Symlink => WalkStep::SkipSymlink,
        EntryKind::Directory => WalkStep::Descend,
        EntryKind::File => WalkStep::Measure,
        EntryKind::Other => WalkStep::Ignore,
    }
}

proof fn lemma_child_below(path: Seq<PartView>, root: Seq<PartView>, part: PartView)
    requires
        stripped(path, root) is Some,
    ensures
        stripped(path.push(part), root) == Some(stripped(path, root)->0.push(part)),
{
    assert(path.push(part).take(root.len() as int) =~= path.take(root.len() as int));
    assert(path.push(part).skip(root.len() as int) =~= path.skip(root.len() as int).push(part));
}

impl Walk {
    /// A walk that is to start by listing `root`.
    pub fn new(root: FilePath) -> (walk: Walk)
        ensures
            walk@ == WalkView::start(root@),
            walk@.wf(),
            walk@.root == root@,
            walk@.open == seq![root@],
            walk@.measuring is None,
            walk@.entries.len() == 0,
            walk@.dirs.len() == 0,
    {
        let mut open: Vec<FilePath> = Vec::new();
        open.push(root.clone());
        let walk = Walk {
            root,
            open,
            measuring: None,
            entries: Vec::new(),
            dirs: Vec::new(),
        };
        assert(walk@.open =~= seq![root@]);
        assert(walk@.entries =~= Seq::empty());
        assert(walk@.dirs =~= Seq::empty());
        assert(root@.take(root@.len() as int) =~= root@);
        walk
    }

    /// The directory that is being listed, unless the walk is over.
    pub fn listing(&self) -> (dir: Option<&FilePath>)
        ensures
            match dir {
                Some(path) => self@.open.len() > 0 && path@ == self@.open.last(),
                None => self@.open.len() == 0,
            },
    {
        if self.open.len() == 0 {
            None
        } else {
            Some(&self.open[self.open.len() - 1])
        }
    }

    /// The next entry of the directory that is being listed: its path, and what is to be
    /// done about it. Links are not followed, so no link can lead the walk in a circle.
    pub fn entry(&mut self, name: &Vec<u8>, kind: EntryKind) -> (step: (FilePath, WalkStep))
        requires
            old(self)@.wf(),
            old(self)@.open.len() > 0,
            old(self)@.measuring is None,
        ensures
            final(self)@ == old(self)@.entered(name@, kind),
            final(self)@.wf(),
            step.0@ == old(self)@.at(name@),
            step.1 == step_for(kind),
            step.0@ == old(self)@.open.last().push(PartView::Normal(name@)),
            step.1 == match kind {
                EntryKind::Symlink => WalkStep::SkipSymlink,
                EntryKind::Directory => WalkStep::Descend,
                EntryKind::File => WalkStep::Measure,
                EntryKind::Other => WalkStep::Ignore,
            },
            kind == EntryKind::Symlink || kind == EntryKind::Other ==> final(self)@ == old(self)@,
            final(self)@.root == old(self)@.root,
            final(self)@.entries == old(self)@.entries,
            final(self)@.open == (if kind == EntryKind::Directory {
                old(self)@.open.push(step.0@)
            } else {
                old(self)@.open
            }),
            kind != EntryKind::Directory ==> final(self)@.dirs == old(self)@.dirs,
            kind == EntryKind::Directory ==> final(self)@.dirs.len() == old(self)@.dirs.len() + 1
                && final(self)@.dirs.drop_last() == old(self)@.dirs && step.0@ == old(self)@.root
                + final(self)@.dirs.last(),
            final(self)@.measuring == (if kind == EntryKind::File {
                Some(step.0@)
            } else {
                None
            }),
    {
        let ghost before = self@;
        let path = self.open[self.open.len() - 1].child(name);
        proof {
            assert(before.open.last() == before.open[before.open.len() - 1]);
            lemma_child_below(before.open.last(), before.root, PartView::Normal(name@));
            lemma_stripped(path@, before.root);
            if kind == EntryKind::Directory {
                assert(before.entered(name@, kind).dirs.drop_last() =~= before.dirs);
            }
        }
        match kind {
            EntryKind::Symlink => (path, WalkStep::SkipSymlink),
            EntryKind::Directory => {
                if let Some(relative) = path.strip_prefix(&self.root) {
                    self.dirs.push(relative);
                    self.open.push(path.clone());
                }
                assert(self@.open =~= before.open.push(path@));
                assert(self@.dirs =~= before.dirs.push(stripped(path@, before.root)->0));
                (path, WalkStep::Descend)
            },
            EntryKind::File => {
                self.measuring = Some(path.clone());
                (path, WalkStep::Measure)
            },
            EntryKind::Other => (path, WalkStep::Ignore),
        }
    }

    /// The size of the file that was asked for.
    pub fn measured(&mut self, size: u64)
        requires
            old(self)@.wf(),
            old(self)@.measuring is Some,
        ensures
            final(self)@ == old(self)@.measured(size),
            final(self)@.wf(),
            final(self)@.measuring is None,
            final(self)@.root == old(self)@.root,
            final(self)@.open == old(self)@.open,
            final(self)@.dirs == old(self)@.dirs,
            final(self)@.entries.len() == old(self)@.entries.len() + 1,
            final(self)@.entries.drop_last() == old(self)@.entries,
            final(self)@.entries.last().absolute_path == old(self)@.measuring->0,
            final(self)@.entries.last().absolute_path == old(self)@.root
                + final(self)@.entries.last().relative_path,
            final(self)@.entries.last().size == size,
    {
        let ghost before = self@;
        if let Some(path) = self.measuring.take() {
            if let Some(relative) = path.strip_prefix(&self.root) {
                self.entries.push(
                    FileEntry { relative_path: relative, absolute_path: path, size },
                );
            }
        }
        assert(self@.entries =~= before.measured(size).entries);
        proof {
            lemma_stripped(before.measuring->0, before.root);
            assert(self@.entries.drop_last() =~= before.entries);
        }
    }

    /// The end of the directory that is being listed.
    pub fn exhausted(&mut self)
        requires
            old(self)@.wf(),
            old(self)@.open.len() > 0,
            old(self)@.measuring is None,
        ensures
            final(self)@ == old(self)@.exhausted(),
            final(self)@.wf(),
            final(self)@.open == old(self)@.open.drop_last(),
            final(self)@.root == old(self)@.root,
            final(self)@.entries == old(self)@.entries,
            final(self)@.dirs == old(self)@.dirs,
    {
        let ghost before = self@;
        let _ = self.open.pop();
        assert(self@.open =~= before.open.drop_last());
    }
}

/// Why a source cannot be copied.
#[derive(Debug, Clone, Copy, PartialEq, Eq, Structural)]
pub enum DiscoverError {
    /// The source is a file whose path does not end in a name.
    NoFileName,
}

/// What was found at the source.
pub enum Found {
    /// A file of this size.
    File(u64),
    /// A directory, walked to the end.
    Tree(Walk),
}

/// `items` in the order in which `order` lists their positions.
pub open spec fn arranged<T>(items: Seq<T>, order: Seq<usize>) -> Seq<T> {
    order.map_values(|i: usize| items[i as int])
}

/// Whether `sorted` are `items` in the order of `keys`, items with the same key as they were.
pub open spec fn is_sorted_by<T>(sorted: Seq<T>, items: Seq<T>, keys: Seq<Seq<PartView>>) -> bool {
    exists|order: Seq<usize>|
        #![trigger arranged(items, order)]
        is_sorted_order(keys, order, 0, keys.len() as int) && sorted == arranged(items, order)
}

/// `entries` in the order of their places below the source.
fn sort_entries(entries: &Vec<FileEntry>) -> (sorted: Vec<FileEntry>)
    ensures
        is_sorted_by(
            entry_views(sorted@),
            entry_views(entries@),
            relative_paths(entry_views(entries@)),
        ),
{
    let n: usize = entries.len();
    let mut keys: Vec<FilePath> = Vec::new();
    let mut i: usize = 0;
    while i < n
        invariant
            n == entries@.len(),
            i <= n,
            path_views(keys@) == relative_paths(entry_views(entries@)).take(i as int),
        decreases n - i,
    {
        let ghost before = path_views(keys@);
        let ghost wanted = relative_paths(entry_views(entries@));
        keys.push(entries[i].relative_path.clone());
        assert(path_views(keys@) =~= before.push(wanted[i as int]));
        i += 1;
        assert(wanted.take(i as int) =~= wanted.take(i - 1).push(wanted[i - 1]));
    }
    assert(path_views(keys@) =~= relative_paths(entry_views(entries@)));
    let order = sorted_order(&keys);
    let mut sorted: Vec<FileEntry> = Vec::new();
    let mut k: usize = 0;
    while k < n
        invariant
            n == entries@.len(),
            order@.len() == n,
            k <= n,
            forall|j: int| 0 <= j < n ==> 0 <= #[trigger] order@[j] < n,
            entry_views(sorted@) == arranged(entry_views(entries@), order@).take(k as int),
        decreases n - k,
    {
        let ghost before = entry_views(sorted@);
        let ghost wanted = arranged(entry_views(entries@), order@);
        assert(0 <= order@[k as int] < n);
        sorted.push(entries[order[k]].clone());
        assert(entry_views(sorted@) =~= before.push(wanted[k as int]));
        k += 1;
        assert(wanted.take(k as int) =~= wanted.take(k - 1).push(wanted[k - 1]));
    }
    assert(entry_views(sorted@) =~= arranged(entry_views(entries@), order@));
    sorted
}

/// `paths` in order.
fn sort_paths(paths: &Vec<FilePath>) -> (sorted: Vec<FilePath>)
    ensures
        is_sorted_by(path_views(sorted@), path_views(paths@), path_views(paths@)),
{
    let n: usize = paths.len();
    let order = sorted_order(paths);
    let mut sorted: Vec<FilePath> = Vec::new();
    let mut k: usize = 0;
    while k < n
        invariant
            n == paths@.len(),
            order@.len() == n,
            k <= n,
            forall|j: int| 0 <= j < n ==> 0 <= #[trigger] order@[j] < n,
            path_views(sorted@) == arranged(path_views(paths@), order@).take(k as int),
        decreases n - k,
    {
        let ghost before = path_views(sorted@);
        let ghost wanted = arranged(path_views(paths@), order@);
        assert(0 <= order@[k as int] < n);
        sorted.push(paths[order[k]].clone());
        assert(path_views(sorted@) =~= before.push(wanted[k as int]));
        k += 1;
        assert(wanted.take(k as int) =~= wanted.take(k - 1).push(wanted[k - 1]));
    }
    assert(path_views(sorted@) =~= arranged(path_views(paths@), order@));
    sorted
}

impl FileEntry {
    /// The files to copy and the directories to make, both in order. The directories are all
    /// those below the source, the empty ones too, which hold no file that would name them.
    pub fn discover(source: &FilePath, found: Found) -> (result: Result<
        (Vec<FileEntry>, Vec<FilePath>),
        DiscoverError,
    >)
        requires
            found matches Found::Tree(walk) ==> walk@.open.len() == 0,
        ensures
            match found {
                Found::File(size) => match file_name_of(source@) {
                    Some(name) => {
                        &&& result is Ok
                        &&& entry_views(result->Ok_0.0@) == seq![
                            EntryView {
                                relative_path: seq![PartView::Normal(name)],
                                absolute_path: source@,
                                size,
                            },
                        ]
                        &&& result->Ok_0.1@.len() == 0
                    },
                    None => result == Err::<(Vec<FileEntry>, Vec<FilePath>), DiscoverError>(
                        DiscoverError::NoFileName,
                    ),
                },
                Found::Tree(walk) => {
                    &&& result is Ok
                    &&& is_sorted_by(
                        entry_views(result->Ok_0.0@),
                        walk@.entries,
                        relative_paths(walk@.entries),
                    )
                    &&& is_sorted_by(path_views(result->Ok_0.1@), walk@.dirs, walk@.dirs)
                    &&& result->Ok_0.0@.len() == walk@.entries.len()
                    &&& result->Ok_0.1@.len() == walk@.dirs.len()
                    &&& forall|file: EntryView|
                        #[trigger] entry_views(result->Ok_0.0@).contains(file)
                            <==> walk@.entries.contains(file)
                    &&& forall|dir: Seq<PartView>|
                        #[trigger] path_views(result->Ok_0.1@).contains(dir)
                            <==> walk@.dirs.contains(dir)
                    &&& forall|a: int, b: int|
                        0 <= a < b < result->Ok_0.0@.len() ==> !path_precedes(
                            (#[trigger] result->Ok_0.0@[b]).relative_path@,
                            (#[trigger] result->Ok_0.0@[a]).relative_path@,
                        )
                    &&& forall|a: int, b: int|
                        0 <= a < b < result->Ok_0.1@.len() ==> !path_precedes(
                            (#[trigger] result->Ok_0.1@[b])@,
                            (#[trigger] result->Ok_0.1@[a])@,
                        )
                },
            },
    {
        match found {
            Found::File(size) => {
                match source.file_name() {
                    Some(name) => {
                        let mut entries: Vec<FileEntry> = Vec::new();
                        let relative_path = FilePath::new(Vec::new()).child(name);
                        assert(relative_path@ =~= seq![PartView::Normal(name@)]);
                        entries.push(
                            FileEntry { relative_path, absolute_path: source.clone(), size },
                        );
                        assert(entry_views(entries@) =~= seq![
                            EntryView {
                                relative_path: seq![PartView::Normal(name@)],
                                absolute_path: source@,
                                size,
                            },
                        ]);
                        Ok((entries, Vec::new()))
                    },
                    None => Err(DiscoverError::NoFileName),
                }
            },
            Found::Tree(walk) => {
                let entries = sort_entries(&walk.entries);
                let dirs = sort_paths(&walk.dirs);
                let entry_count: usize = walk.entries.len();
                let dir_count: usize = walk.dirs.len();
                proof {
                    let files = entry_views(entries@);
                    let paths = path_views(dirs@);
                    assert(walk@.entries.len() == entry_count);
                    assert(walk@.dirs.len() == dir_count);
                    lemma_sorting_keeps_items(files, walk@.entries, relative_paths(walk@.entries));
                    lemma_sorting_keeps_items(paths, walk@.dirs, walk@.dirs);
                    assert forall|a: int, b: int| 0 <= a < b < entries@.len() implies (
                    !path_precedes(
                        (#[trigger] entries@[b]).relative_path@,
                        (#[trigger] entries@[a]).relative_path@,
                    )) by {
                        lemma_files_in_order(files, walk@.entries, a, b);
                        assert(files[a] == entries@[a]@);
                        assert(files[b] == entries@[b]@);
                    }
                    assert forall|a: int, b: int| 0 <= a < b < dirs@.len() implies !path_precedes(
                        (#[trigger] dirs@[b])@,
                        (#[trigger] dirs@[a])@,
                    ) by {
                        lemma_dirs_in_order(paths, walk@.dirs, a, b);
                        assert(paths[a] == dirs@[a]@);
                        assert(paths[b] == dirs@[b]@);
                    }
                }
                Ok((entries, dirs))
            },
        }
    }
}

/// A directory tree: what each entry is, and the entries of each directory in the order in
/// which they are listed.
pub enum Tree {
    Symlink,
    File(u64),
    Other,
    Directory(Seq<(Seq<u8>, Tree)>),
}

/// The kind of an entry.
pub open spec fn kind_of(tree: Tree) -> EntryKind {
    match tree {
        Tree::Symlink => EntryKind::Symlink,
        Tree::File(_) => EntryKind::File,
        Tree::Other => EntryKind::Other,
        Tree::Directory(_) => EntryKind::Directory,
    }
}

/// A walk that has come to the entry `name`, after all that follows from it.
pub open spec fn walked(walk: WalkView, name: Seq<u8>, tree: Tree) -> WalkView
    decreases tree,
{
    let entered = walk.entered(name, kind_of(tree));
    match tree {
        Tree::Symlink | Tree::Other => entered,
        Tree::File(size) => entered.measured(size),
        Tree::Directory(items) => walked_all(entered, items).exhausted(),
    }
}

/// A walk through the entries `items` of the innermost directory.
pub open spec fn walked_all(walk: WalkView, items: Seq<(Seq<u8>, Tree)>) -> WalkView
    decreases items,
{
    if items.len() == 0 {
        walk
    } else {
        walked_all(walked(walk, items[0].0, items[0].1), items.skip(1))
    }
}

/// The files in a tree that lies at `place` below `root`.
pub open spec fn files_at(root: Seq<PartView>, place: Seq<PartView>, tree: Tree) -> Seq<EntryView>
    decreases tree,
{
    match tree {
        Tree::File(size) => seq![
            EntryView { relative_path: place, absolute_path: root + place, size },
        ],
        Tree::Directory(items) => files_below(root, place, items),
        _ => Seq::empty(),
    }
}

/// The files in the entries `items` of the directory at `place` below `root`.
pub open spec fn files_below(
    root: Seq<PartView>,
    place: Seq<PartView>,
    items: Seq<(Seq<u8>, Tree)>,
) -> Seq<EntryView>
    decreases items,
{
    if items.len() == 0 {
        Seq::empty()
    } else {
        files_at(root, place.push(PartView::Normal(items[0].0)), items[0].1) + files_below(
            root,
            place,
            items.skip(1),
        )
    }
}

/// The directories in a tree that lies at `place` below the root.
pub open spec fn dirs_at(place: Seq<PartView>, tree: Tree) -> Seq<Seq<PartView>>
    decreases tree,
{
    match tree {
        Tree::Directory(items) => seq![place] + dirs_below(place, items),
        _ => Seq::empty(),
    }
}

/// The directories in the entries `items` of the directory at `place` below the root.
pub open spec fn dirs_below(place: Seq<PartView>, items: Seq<(Seq<u8>, Tree)>) -> Seq<
    Seq<PartView>,
>
    decreases items,
{
    if items.len() == 0 {
        Seq::empty()
    } else {
        dirs_at(place.push(PartView::Normal(items[0].0)), items[0].1) + dirs_below(
            place,
            items.skip(1),
        )
    }
}

proof fn lemma_walked(walk: WalkView, place: Seq<PartView>, name: Seq<u8>, tree: Tree)
    requires
        walk.open.len() > 0,
        walk.open.last() == walk.root + place,
        walk.measuring is None,
    ensures
        walked(walk, name, tree) == (WalkView {
            entries: walk.entries + files_at(
                walk.root,
                place.push(PartView::Normal(name)),
                tree,
            ),
            dirs: walk.dirs + dirs_at(place.push(PartView::Normal(name)), tree),
            ..walk
        }),
    decreases tree, 0int,
{
    let below = place.push(PartView::Normal(name));
    let path = walk.at(name);
    assert(path =~= walk.root + below);
    assert(path.take(walk.root.len() as int) =~= walk.root);
    assert(path.skip(walk.root.len() as int) =~= below);
    let expected = WalkView {
        entries: walk.entries + files_at(walk.root, below, tree),
        dirs: walk.dirs + dirs_at(below, tree),
        ..walk
    };
    let got = walked(walk, name, tree);
    match tree {
        Tree::Directory(items) => {
            let entered = walk.entered(name, EntryKind::Directory);
            lemma_walked_all(entered, below, items);
            assert(got.open =~= walk.open);
            assert(got.entries =~= expected.entries);
            assert(got.dirs =~= expected.dirs);
        },
        _ => {
            assert(got.entries =~= expected.entries);
            assert(got.dirs =~= expected.dirs);
        },
    }
}

proof fn lemma_walked_all(walk: WalkView, place: Seq<PartView>, items: Seq<(Seq<u8>, Tree)>)
    requires
        walk.open.len() > 0,
        walk.open.last() == walk.root + place,
        walk.measuring is None,
    ensures
        walked_all(walk, items) == (WalkView {
            entries: walk.entries + files_below(walk.root, place, items),
            dirs: walk.dirs + dirs_below(place, items),
            ..walk
        }),
    decreases items, 1int,
{
    let expected = WalkView {
        entries: walk.entries + files_below(walk.root, place, items),
        dirs: walk.dirs + dirs_below(place, items),
        ..walk
    };
    if items.len() > 0 {
        lemma_walked(walk, place, items[0].0, items[0].1);
        lemma_walked_all(walked(walk, items[0].0, items[0].1), place, items.skip(1));
    }
    let got = walked_all(walk, items);
    assert(got.entries =~= expected.entries);
    assert(got.dirs =~= expected.dirs);
}

/// A walk through a directory ends, and has then found every file and every directory in it,
/// at any depth, each where it lies, and nothing else: links are never followed.
pub proof fn lemma_walk_finds_all(root: Seq<PartView>, items: Seq<(Seq<u8>, Tree)>)
    ensures
        walked_all(WalkView::start(root), items).exhausted() == (WalkView {
            root,
            open: Seq::empty(),
            measuring: None,
            entries: files_below(root, Seq::empty(), items),
            dirs: dirs_below(Seq::empty(), items),
        }),
{
    let start = WalkView::start(root);
    assert(root + Seq::<PartView>::empty() =~= root);
    lemma_walked_all(start, Seq::empty(), items);
    let end = walked_all(start, items).exhausted();
    assert(end.open =~= Seq::empty());
    assert(end.entries =~= files_below(root, Seq::empty(), items));
    assert(end.dirs =~= dirs_below(Seq::empty(), items));
}

/// Sorting keeps all items and makes up none.
pub proof fn lemma_sorting_keeps_items<T>(sorted: Seq<T>, items: Seq<T>, keys: Seq<Seq<PartView>>)
    requires
        items.len() == keys.len(),
        keys.len() <= usize::MAX,
        is_sorted_by(sorted, items, keys),
    ensures
        sorted.len() == items.len(),
        forall|item: T| sorted.contains(item) <==> items.contains(item),
{
    let order = choose|order: Seq<usize>|
        #![trigger arranged(items, order)]
        is_sorted_order(keys, order, 0, keys.len() as int) && sorted == arranged(items, order);
    assert forall|item: T| sorted.contains(item) implies items.contains(item) by {
        let k = choose|k: int| 0 <= k < sorted.len() && sorted[k] == item;
        assert(items[order[k] as int] == item);
    }
    assert forall|item: T| items.contains(item) implies sorted.contains(item) by {
        let p = choose|p: int| 0 <= p < items.len() && items[p] == item;
        assert(order.contains(p as usize));
        let k = choose|k: int| 0 <= k < order.len() && order[k] == p;
        assert(sorted[k] == item);
    }
}

/// Of two discovered files, the later one does not belong before the earlier one.
pub proof fn lemma_files_in_order(sorted: Seq<EntryView>, items: Seq<EntryView>, a: int, b: int)
    requires
        is_sorted_by(sorted, items, relative_paths(items)),
        0 <= a < b < sorted.len(),
    ensures
        !path_precedes(sorted[b].relative_path, sorted[a].relative_path),
{
    let keys = relative_paths(items);
    let order = choose|order: Seq<usize>|
        #![trigger arranged(items, order)]
        is_sorted_order(keys, order, 0, keys.len() as int) && sorted == arranged(items, order);
    assert(item_precedes(keys, order[a] as int, order[b] as int));
    lemma_path_order_total(keys[order[a] as int], keys[order[b] as int]);
}

/// Of two discovered directories, the later one does not belong before the earlier one.
pub proof fn lemma_dirs_in_order(
    sorted: Seq<Seq<PartView>>,
    items: Seq<Seq<PartView>>,
    a: int,
    b: int,
)
    requires
        is_sorted_by(sorted, items, items),
        0 <= a < b < sorted.len(),
    ensures
        !path_precedes(sorted[b], sorted[a]),
{
    let order = choose|order: Seq<usize>|
        #![trigger arranged(items, order)]
        is_sorted_order(items, order, 0, items.len() as int) && sorted == arranged(items, order);
    assert(item_precedes(items, order[a] as int, order[b] as int));
    lemma_path_order_total(items[order[a] as int], items[order[b] as int]);
}

proof fn lemma_increasing_agree<T>(
    key: spec_fn(T) -> Seq<PartView>,
    a: Seq<T>,
    b: Seq<T>,
    n: nat,
)
    requires
        a.len() == b.len(),
        n <= a.len(),
        forall|i: int, j: int|
            0 <= i < j < a.len() ==> path_precedes(key(#[trigger] a[i]), key(#[trigger] a[j])),
        forall|i: int, j: int|
            0 <= i < j < b.len() ==> path_precedes(key(#[trigger] b[i]), key(#[trigger] b[j])),
        forall|item: T| #[trigger] a.contains(item) <==> b.contains(item),
    ensures
        forall|k: int| 0 <= k < n ==> a[k] == b[k],
    decreases n,
{
    if n > 0 {
        let m = n - 1;
        lemma_increasing_agree(key, a, b, m as nat);
        assert(a.contains(a[m]));
        let at = choose|k: int| 0 <= k < b.len() && b[k] == a[m];
        lemma_path_order_total(key(a[m]), key(b[m]));
        lemma_path_order_total(key(b[m]), key(b[m]));
        if at < m {
            assert(a[at] == b[at]);
            assert(path_precedes(key(a[at]), key(a[m])));
        } else if at > m {
            assert(path_precedes(key(b[m]), key(b[at])));
            assert(b.contains(b[m]));
            assert(a.contains(b[m]));
            let back = choose|k: int| 0 <= k < a.len() && a[k] == b[m];
            if back < m {
                assert(a[back] == b[back]);
                assert(path_precedes(key(b[back]), key(b[m])));
            } else if back > m {
                assert(path_precedes(key(a[m]), key(a[back])));
            }
        }
    }
}

proof fn lemma_sorted_increasing<T>(
    key: spec_fn(T) -> Seq<PartView>,
    sorted: Seq<T>,
    items: Seq<T>,
    keys: Seq<Seq<PartView>>,
    a: int,
    b: int,
)
    requires
        keys == items.map_values(key),
        is_sorted_by(sorted, items, keys),
        forall|i: int, j: int|
            0 <= i < j < items.len() ==> key(#[trigger] items[i]) != key(#[trigger] items[j]),
        0 <= a < b < sorted.len(),
    ensures
        path_precedes(key(sorted[a]), key(sorted[b])),
{
    let order = choose|order: Seq<usize>|
        #![trigger arranged(items, order)]
        is_sorted_order(keys, order, 0, keys.len() as int) && sorted == arranged(items, order);
    let i = order[a] as int;
    let j = order[b] as int;
    assert(item_precedes(keys, i, j));
    lemma_path_order_total(keys[i], keys[i]);
    if keys[i] == keys[j] {
        assert(key(items[i]) == key(items[j]));
    }
}

/// The discovered files, and their order, do not depend on the order in which the system lists
/// directories: two lists of the same files, no two of them in the same place, come out the
/// same.
pub proof fn lemma_listing_order_is_irrelevant(
    one: Seq<EntryView>,
    other: Seq<EntryView>,
    sorted_one: Seq<EntryView>,
    sorted_other: Seq<EntryView>,
)
    requires
        one.len() == other.len() <= usize::MAX,
        forall|item: EntryView| one.contains(item) <==> other.contains(item),
        forall|i: int, j: int|
            0 <= i < j < one.len() ==> (#[trigger] one[i]).relative_path != (
            #[trigger] one[j]).relative_path,
        forall|i: int, j: int|
            0 <= i < j < other.len() ==> (#[trigger] other[i]).relative_path != (
            #[trigger] other[j]).relative_path,
        is_sorted_by(sorted_one, one, relative_paths(one)),
        is_sorted_by(sorted_other, other, relative_paths(other)),
    ensures
        sorted_one == sorted_other,
{
    let key = |entry: EntryView| entry.relative_path;
    assert(relative_paths(one) =~= one.map_values(key));
    assert(relative_paths(other) =~= other.map_values(key));
    lemma_sorting_keeps_items(sorted_one, one, relative_paths(one));
    lemma_sorting_keeps_items(sorted_other, other, relative_paths(other));
    assert forall|i: int, j: int| 0 <= i < j < sorted_one.len() implies path_precedes(
        key(#[trigger] sorted_one[i]),
        key(#[trigger] sorted_one[j]),
    ) by {
        lemma_sorted_increasing(key, sorted_one, one, relative_paths(one), i, j);
    }
    assert forall|i: int, j: int| 0 <= i < j < sorted_other.len() implies path_precedes(
        key(#[trigger] sorted_other[i]),
        key(#[trigger] sorted_other[j]),
    ) by {
        lemma_sorted_increasing(key, sorted_other, other, relative_paths(other), i, j);
    }
    assert forall|item: EntryView| #[trigger] sorted_one.contains(item)
        <==> sorted_other.contains(item) by {
        assert(sorted_one.contains(item) <==> one.contains(item));
        assert(sorted_other.contains(item) <==> other.contains(item));
    }
    lemma_increasing_agree(key, sorted_one, sorted_other, sorted_one.len());
    assert(sorted_one =~= sorted_other);
}

/// The discovered directories, and their order, do not depend on the order in which the system
/// lists directories either.
pub proof fn lemma_listing_order_is_irrelevant_for_dirs(
    one: Seq<Seq<PartView>>,
    other: Seq<Seq<PartView>>,
    sorted_one: Seq<Seq<PartView>>,
    sorted_other: Seq<Seq<PartView>>,
)
    requires
        one.len() == other.len() <= usize::MAX,
        forall|item: Seq<PartView>| one.contains(item) <==> other.contains(item),
        one.no_duplicates(),
        other.no_duplicates(),
        is_sorted_by(sorted_one, one, one),
        is_sorted_by(sorted_other, other, other),
    ensures
        sorted_one == sorted_other,
{
    let key = |path: Seq<PartView>| path;
    assert(one =~= one.map_values(key));
    assert(other =~= other.map_values(key));
    lemma_sorting_keeps_items(sorted_one, one, one);
    lemma_sorting_keeps_items(sorted_other, other, other);
    assert forall|i: int, j: int| 0 <= i < j < sorted_one.len() implies path_precedes(
        key(#[trigger] sorted_one[i]),
        key(#[trigger] sorted_one[j]),
    ) by {
        lemma_sorted_increasing(key, sorted_one, one, one, i, j);
    }
    assert forall|i: int, j: int| 0 <= i < j < sorted_other.len() implies path_precedes(
        key(#[trigger] sorted_other[i]),
        key(#[trigger] sorted_other[j]),
    ) by {
        lemma_sorted_increasing(key, sorted_other, other, other, i, j);
    }
    assert forall|item: Seq<PartView>| #[trigger] sorted_one.contains(item)
        <==> sorted_other.contains(item) by {
        assert(sorted_one.contains(item) <==> one.contains(item));
        assert(sorted_other.contains(item) <==> other.contains(item));
    }
    lemma_increasing_agree(key, sorted_one, sorted_other, sorted_one.len());
    assert(sorted_one =~= sorted_other);
}

/// Whether no directory in a tree lists a name twice.
pub open spec fn lists_once(tree: Tree) -> bool
    decreases tree,
{
    match tree {
        Tree::Directory(items) => listed_once(items),
        _ => true,
    }
}

/// Whether no name occurs twice among these entries, nor in any directory among them.
pub open spec fn listed_once(items: Seq<(Seq<u8>, Tree)>) -> bool
    decreases items,
{
    items.len() > 0 ==> {
        &&& forall|k: int| 0 < k < items.len() ==> (#[trigger] items[k]).0 != items[0].0
        &&& lists_once(items[0].1)
        &&& listed_once(items.skip(1))
    }
}

/// Whether `path` is at `place` or below it.
pub open spec fn lies_at(path: Seq<PartView>, place: Seq<PartView>) -> bool {
    place.len() <= path.len() && path.take(place.len() as int) == place
}

/// Whether `path` is at one of the entries `items` of the directory at `place`, or below it.
spec fn lies_among(
    path: Seq<PartView>,
    place: Seq<PartView>,
    items: Seq<(Seq<u8>, Tree)>,
) -> bool {
    exists|k: int|
        0 <= k < items.len() && lies_at(
            path,
            place.push(PartView::Normal((#[trigger] items[k]).0)),
        )
}

/// A path below an entry of a directory is below the directory, and not the directory itself.
proof fn lemma_among_is_below(
    path: Seq<PartView>,
    place: Seq<PartView>,
    items: Seq<(Seq<u8>, Tree)>,
)
    requires
        lies_among(path, place, items),
    ensures
        lies_at(path, place),
        path != place,
{
    let k = choose|k: int|
        0 <= k < items.len() && lies_at(
            path,
            place.push(PartView::Normal((#[trigger] items[k]).0)),
        );
    let below = place.push(PartView::Normal(items[k].0));
    assert(path.take(place.len() as int) =~= below.take(place.len() as int));
    assert(below.take(place.len() as int) =~= place);
}

/// What is below one entry is not below an entry with another name.
proof fn lemma_apart(
    a: Seq<PartView>,
    b: Seq<PartView>,
    place: Seq<PartView>,
    items: Seq<(Seq<u8>, Tree)>,
)
    requires
        items.len() > 0,
        listed_once(items),
        lies_at(a, place.push(PartView::Normal(items[0].0))),
        lies_among(b, place, items.skip(1)),
    ensures
        a != b,
{
    let rest = items.skip(1);
    let k = choose|k: int|
        0 <= k < rest.len() && lies_at(b, place.push(PartView::Normal((#[trigger] rest[k]).0)));
    assert(rest[k] == items[k + 1]);
    let first = place.push(PartView::Normal(items[0].0));
    let other = place.push(PartView::Normal(rest[k].0));
    assert(a.take(first.len() as int)[place.len() as int] == first[place.len() as int]);
    assert(b.take(other.len() as int)[place.len() as int] == other[place.len() as int]);
}

proof fn lemma_among_more(
    path: Seq<PartView>,
    place: Seq<PartView>,
    items: Seq<(Seq<u8>, Tree)>,
)
    requires
        items.len() > 0,
        lies_at(path, place.push(PartView::Normal(items[0].0))) || lies_among(
            path,
            place,
            items.skip(1),
        ),
    ensures
        lies_among(path, place, items),
{
    if !lies_at(path, place.push(PartView::Normal(items[0].0))) {
        let rest = items.skip(1);
        let k = choose|k: int|
            0 <= k < rest.len() && lies_at(
                path,
                place.push(PartView::Normal((#[trigger] rest[k]).0)),
            );
        assert(rest[k] == items[k + 1]);
    }
}

/// All of `a` and then all of `b`, where neither holds a path twice and they share none.
proof fn lemma_joined_differ(a: Seq<Seq<PartView>>, b: Seq<Seq<PartView>>)
    requires
        a.no_duplicates(),
        b.no_duplicates(),
        forall|i: int, j: int|
            0 <= i < a.len() && 0 <= j < b.len() ==> #[trigger] a[i] != #[trigger] b[j],
    ensures
        (a + b).no_duplicates(),
{
    let all = a + b;
    assert forall|i: int, j: int| 0 <= i < all.len() && 0 <= j < all.len() && i != j implies all[i]
        != all[j] by {
        if i < a.len() && j < a.len() {
            assert(a[i] != a[j]);
        } else if i >= a.len() && j >= a.len() {
            assert(b[i - a.len()] != b[j - a.len()]);
        } else if i < a.len() {
            assert(a[i] != b[j - a.len()]);
        } else {
            assert(a[j] != b[i - a.len()]);
        }
    }
}

proof fn lemma_files_at_differ(root: Seq<PartView>, place: Seq<PartView>, tree: Tree)
    requires
        lists_once(tree),
    ensures
        relative_paths(files_at(root, place, tree)).no_duplicates(),
        forall|i: int|
            0 <= i < files_at(root, place, tree).len() ==> lies_at(
                (#[trigger] relative_paths(files_at(root, place, tree))[i]),
                place,
            ),
    decreases tree, 0int,
{
    let paths = relative_paths(files_at(root, place, tree));
    match tree {
        Tree::Directory(items) => {
            lemma_files_below_differ(root, place, items);
            assert forall|i: int| 0 <= i < paths.len() implies lies_at(#[trigger] paths[i], place) by {
                lemma_among_is_below(paths[i], place, items);
            }
        },
        _ => {
            assert(place.take(place.len() as int) =~= place);
        },
    }
}

proof fn lemma_files_below_differ(
    root: Seq<PartView>,
    place: Seq<PartView>,
    items: Seq<(Seq<u8>, Tree)>,
)
    requires
        listed_once(items),
    ensures
        relative_paths(files_below(root, place, items)).no_duplicates(),
        forall|i: int|
            0 <= i < files_below(root, place, items).len() ==> lies_among(
                #[trigger] relative_paths(files_below(root, place, items))[i],
                place,
                items,
            ),
    decreases items, 1int,
{
    if items.len() > 0 {
        let first_place = place.push(PartView::Normal(items[0].0));
        let first = relative_paths(files_at(root, first_place, items[0].1));
        let rest = relative_paths(files_below(root, place, items.skip(1)));
        let all = relative_paths(files_below(root, place, items));
        lemma_files_at_differ(root, first_place, items[0].1);
        lemma_files_below_differ(root, place, items.skip(1));
        assert(all =~= first + rest);
        assert forall|i: int, j: int| 0 <= i < first.len() && 0 <= j < rest.len() implies (
        #[trigger] first[i]) != (#[trigger] rest[j]) by {
            lemma_apart(first[i], rest[j], place, items);
        }
        lemma_joined_differ(first, rest);
        assert forall|i: int| 0 <= i < all.len() implies lies_among(
            #[trigger] all[i],
            place,
            items,
        ) by {
            if i < first.len() {
                assert(all[i] == first[i]);
            } else {
                assert(all[i] == rest[i - first.len()]);
            }
            lemma_among_more(all[i], place, items);
        }
    }
}

proof fn lemma_dirs_at_differ(place: Seq<PartView>, tree: Tree)
    requires
        lists_once(tree),
    ensures
        dirs_at(place, tree).no_duplicates(),
        forall|i: int|
            0 <= i < dirs_at(place, tree).len() ==> lies_at(
                #[trigger] dirs_at(place, tree)[i],
                place,
            ),
    decreases tree, 0int,
{
    if let Tree::Directory(items) = tree {
        let below = dirs_below(place, items);
        let all = dirs_at(place, tree);
        lemma_dirs_below_differ(place, items);
        assert(place.take(place.len() as int) =~= place);
        assert forall|i: int, j: int| 0 <= i < 1 && 0 <= j < below.len() implies (
        #[trigger] seq![place][i]) != (#[trigger] below[j]) by {
            lemma_among_is_below(below[j], place, items);
        }
        lemma_joined_differ(seq![place], below);
        assert forall|i: int| 0 <= i < all.len() implies lies_at(#[trigger] all[i], place) by {
            if i > 0 {
                assert(all[i] == below[i - 1]);
                lemma_among_is_below(below[i - 1], place, items);
            }
        }
    }
}

proof fn lemma_dirs_below_differ(place: Seq<PartView>, items: Seq<(Seq<u8>, Tree)>)
    requires
        listed_once(items),
    ensures
        dirs_below(place, items).no_duplicates(),
        forall|i: int|
            0 <= i < dirs_below(place, items).len() ==> lies_among(
                #[trigger] dirs_below(place, items)[i],
                place,
                items,
            ),
    decreases items, 1int,
{
    if items.len() > 0 {
        let first_place = place.push(PartView::Normal(items[0].0));
        let first = dirs_at(first_place, items[0].1);
        let rest = dirs_below(place, items.skip(1));
        let all = dirs_below(place, items);
        lemma_dirs_at_differ(first_place, items[0].1);
        lemma_dirs_below_differ(place, items.skip(1));
        assert forall|i: int, j: int| 0 <= i < first.len() && 0 <= j < rest.len() implies (
        #[trigger] first[i]) != (#[trigger] rest[j]) by {
            lemma_apart(first[i], rest[j], place, items);
        }
        lemma_joined_differ(first, rest);
        assert forall|i: int| 0 <= i < all.len() implies lies_among(
            #[trigger] all[i],
            place,
            items,
        ) by {
            if i < first.len() {
                assert(all[i] == first[i]);
            } else {
                assert(all[i] == rest[i - first.len()]);
            }
            lemma_among_more(all[i], place, items);
        }
    }
}

/// In a tree in which no directory lists a name twice, no two files are found in the same
/// place, and no two directories.
pub proof fn lemma_places_differ(root: Seq<PartView>, items: Seq<(Seq<u8>, Tree)>)
    requires
        listed_once(items),
    ensures
        relative_paths(files_below(root, Seq::empty(), items)).no_duplicates(),
        dirs_below(Seq::empty(), items).no_duplicates(),
{
    lemma_files_below_differ(root, Seq::empty(), items);
    lemma_dirs_below_differ(Seq::empty(), items);
}

/// Whether the tree `large` holds all that `small` does, each entry under its name, in whatever
/// order the directories list them.
pub open spec fn holds_all(small: Tree, large: Tree) -> bool
    decreases small,
{
    match (small, large) {
        (Tree::Symlink, Tree::Symlink) => true,
        (Tree::File(size), Tree::File(other)) => size == other,
        (Tree::Other, Tree::Other) => true,
        (Tree::Directory(few), Tree::Directory(many)) => all_held(few, many),
        _ => false,
    }
}

/// Whether each of the entries `few` is among `many`, with all that it holds.
pub open spec fn all_held(few: Seq<(Seq<u8>, Tree)>, many: Seq<(Seq<u8>, Tree)>) -> bool
    decreases few,
{
    few.len() > 0 ==> {
        &&& exists|k: int|
            0 <= k < many.len() && (#[trigger] many[k]).0 == few[0].0 && holds_all(
                few[0].1,
                many[k].1,
            )
        &&& all_held(few.skip(1), many)
    }
}

proof fn lemma_entry_is_below(
    root: Seq<PartView>,
    place: Seq<PartView>,
    items: Seq<(Seq<u8>, Tree)>,
    k: int,
)
    requires
        0 <= k < items.len(),
    ensures
        forall|file: EntryView|
            files_at(root, place.push(PartView::Normal(items[k].0)), items[k].1).contains(file)
                ==> #[trigger] files_below(root, place, items).contains(file),
        forall|dir: Seq<PartView>|
            dirs_at(place.push(PartView::Normal(items[k].0)), items[k].1).contains(dir)
                ==> #[trigger] dirs_below(place, items).contains(dir),
    decreases items.len(),
{
    let first_place = place.push(PartView::Normal(items[0].0));
    let rest = items.skip(1);
    if k > 0 {
        assert(rest[k - 1] == items[k]);
        lemma_entry_is_below(root, place, rest, k - 1);
    }
    lemma_contained_in_sum(
        files_at(root, first_place, items[0].1),
        files_below(root, place, rest),
    );
    lemma_contained_in_sum(dirs_at(first_place, items[0].1), dirs_below(place, rest));
}

proof fn lemma_contained_in_sum<T>(a: Seq<T>, b: Seq<T>)
    ensures
        forall|item: T| #[trigger] (a + b).contains(item) <==> a.contains(item) || b.contains(item),
{
    assert forall|item: T| #[trigger] (a + b).contains(item) <==> a.contains(item) || b.contains(
        item,
    ) by {
        if (a + b).contains(item) {
            let i = choose|i: int| 0 <= i < (a + b).len() && (a + b)[i] == item;
            if i < a.len() {
                assert(a[i] == item);
            } else {
                assert(b[i - a.len()] == item);
            }
        } else if a.contains(item) {
            let i = choose|i: int| 0 <= i < a.len() && a[i] == item;
            assert((a + b)[i] == item);
        } else if b.contains(item) {
            let i = choose|i: int| 0 <= i < b.len() && b[i] == item;
            assert((a + b)[a.len() + i] == item);
        }
    }
}

proof fn lemma_held_at(root: Seq<PartView>, place: Seq<PartView>, small: Tree, large: Tree)
    requires
        holds_all(small, large),
    ensures
        forall|file: EntryView|
            files_at(root, place, small).contains(file) ==> #[trigger] files_at(
                root,
                place,
                large,
            ).contains(file),
        forall|dir: Seq<PartView>|
            dirs_at(place, small).contains(dir) ==> #[trigger] dirs_at(place, large).contains(dir),
    decreases small, 0int,
{
    if let (Tree::Directory(few), Tree::Directory(many)) = (small, large) {
        lemma_held_below(root, place, few, many);
        assert(files_at(root, place, small) == files_below(root, place, few));
        assert(files_at(root, place, large) == files_below(root, place, many));
        lemma_contained_in_sum(seq![place], dirs_below(place, few));
        lemma_contained_in_sum(seq![place], dirs_below(place, many));
    }
}

proof fn lemma_held_below(
    root: Seq<PartView>,
    place: Seq<PartView>,
    few: Seq<(Seq<u8>, Tree)>,
    many: Seq<(Seq<u8>, Tree)>,
)
    requires
        all_held(few, many),
    ensures
        forall|file: EntryView|
            files_below(root, place, few).contains(file) ==> #[trigger] files_below(
                root,
                place,
                many,
            ).contains(file),
        forall|dir: Seq<PartView>|
            dirs_below(place, few).contains(dir) ==> #[trigger] dirs_below(place, many).contains(
                dir,
            ),
    decreases few, 1int,
{
    if few.len() > 0 {
        let k = choose|k: int|
            0 <= k < many.len() && (#[trigger] many[k]).0 == few[0].0 && holds_all(
                few[0].1,
                many[k].1,
            );
        let first_place = place.push(PartView::Normal(few[0].0));
        lemma_held_at(root, first_place, few[0].1, many[k].1);
        lemma_entry_is_below(root, place, many, k);
        lemma_held_below(root, place, few.skip(1), many);
        lemma_contained_in_sum(
            files_at(root, first_place, few[0].1),
            files_below(root, place, few.skip(1)),
        );
        lemma_contained_in_sum(
            dirs_at(first_place, few[0].1),
            dirs_below(place, few.skip(1)),
        );
    }
}

proof fn lemma_same_length<T>(a: Seq<T>, b: Seq<T>)
    requires
        a.no_duplicates(),
        b.no_duplicates(),
        forall|item: T| #[trigger] a.contains(item) <==> b.contains(item),
    ensures
        a.len() == b.len(),
{
    a.unique_seq_to_set();
    b.unique_seq_to_set();
    assert(a.to_set() =~= b.to_set()) by {
        assert forall|item: T| a.to_set().contains(item) <==> b.to_set().contains(item) by {
            assert(a.contains(item) <==> b.contains(item));
        }
    }
}

/// What is discovered in a directory is fixed by what it holds: two listings of the same tree,
/// in which no directory lists a name twice, give the same files and the same directories in
/// the same order, however each directory is listed.
pub proof fn lemma_discovery_is_fixed_by_the_tree(
    root: Seq<PartView>,
    one: Seq<(Seq<u8>, Tree)>,
    other: Seq<(Seq<u8>, Tree)>,
    files_one: Seq<EntryView>,
    files_other: Seq<EntryView>,
    dirs_one: Seq<Seq<PartView>>,
    dirs_other: Seq<Seq<PartView>>,
)
    requires
        listed_once(one),
        listed_once(other),
        all_held(one, other),
        all_held(other, one),
        files_below(root, Seq::empty(), one).len() <= usize::MAX,
        dirs_below(Seq::empty(), one).len() <= usize::MAX,
        is_sorted_by(
            files_one,
            files_below(root, Seq::empty(), one),
            relative_paths(files_below(root, Seq::empty(), one)),
        ),
        is_sorted_by(
            files_other,
            files_below(root, Seq::empty(), other),
            relative_paths(files_below(root, Seq::empty(), other)),
        ),
        is_sorted_by(dirs_one, dirs_below(Seq::empty(), one), dirs_below(Seq::empty(), one)),
        is_sorted_by(dirs_other, dirs_below(Seq::empty(), other), dirs_below(Seq::empty(), other)),
    ensures
        files_one == files_other,
        dirs_one == dirs_other,
{
    let top = Seq::<PartView>::empty();
    let f = files_below(root, top, one);
    let g = files_below(root, top, other);
    lemma_places_differ(root, one);
    lemma_places_differ(root, other);
    lemma_held_below(root, top, one, other);
    lemma_held_below(root, top, other, one);
    lemma_entries_differ(f);
    lemma_entries_differ(g);
    assert forall|item: EntryView| #[trigger] f.contains(item) <==> g.contains(item) by {
        assert(g.contains(item) ==> f.contains(item));
        assert(f.contains(item) ==> g.contains(item));
    }
    lemma_same_length(f, g);
    let d = dirs_below(top, one);
    let e = dirs_below(top, other);
    assert forall|item: Seq<PartView>| #[trigger] d.contains(item) <==> e.contains(item) by {
        assert(e.contains(item) ==> d.contains(item));
        assert(d.contains(item) ==> e.contains(item));
    }
    lemma_same_length(d, e);
    lemma_listing_order_is_irrelevant(f, g, files_one, files_other);
    lemma_listing_order_is_irrelevant_for_dirs(d, e, dirs_one, dirs_other);
}

proof fn lemma_entries_differ(files: Seq<EntryView>)
    requires
        relative_paths(files).no_duplicates(),
    ensures
        files.no_duplicates(),
        forall|i: int, j: int|
            0 <= i < j < files.len() ==> (#[trigger] files[i]).relative_path != (
            #[trigger] files[j]).relative_path,
{
    assert forall|i: int, j: int| 0 <= i < files.len() && 0 <= j < files.len() && i != j implies (
    #[trigger] files[i]).relative_path != (#[trigger] files[j]).relative_path by {
        assert(relative_paths(files)[i] != relative_paths(files)[j]);
    }
}

/// Whether these names lead from the entries `items` to this tree, one directory after the
/// other.
pub open spec fn leads_to(
    items: Seq<(Seq<u8>, Tree)>,
    names: Seq<Seq<u8>>,
    tree: Tree,
) -> bool
    decreases names.len(),
{
    names.len() > 0 && exists|k: int|
        0 <= k < items.len() && (#[trigger] items[k]).0 == names[0] && if names.len() == 1 {
            items[k].1 == tree
        } else {
            items[k].1 is Directory && leads_to(items[k].1->Directory_0, names.skip(1), tree)
        }
}

/// A path of these names.
pub open spec fn named(names: Seq<Seq<u8>>) -> Seq<PartView> {
    names.map_values(|name: Seq<u8>| PartView::Normal(name))
}

proof fn lemma_leads_on(
    items: Seq<(Seq<u8>, Tree)>,
    k: int,
    names: Seq<Seq<u8>>,
    tree: Tree,
)
    requires
        0 <= k < items.len(),
        names.len() == 0 && items[k].1 == tree || names.len() > 0 && items[k].1 is Directory
            && leads_to(items[k].1->Directory_0, names, tree),
    ensures
        leads_to(items, seq![items[k].0] + names, tree),
        named(seq![items[k].0] + names) == seq![PartView::Normal(items[k].0)] + named(names),
{
    let all = seq![items[k].0] + names;
    assert(all.skip(1) =~= names);
    assert(all[0] == items[k].0);
    assert(items[k].0 == all[0]);
    assert(named(all) =~= seq![PartView::Normal(items[k].0)] + named(names));
}

proof fn lemma_leads_among_more(
    items: Seq<(Seq<u8>, Tree)>,
    names: Seq<Seq<u8>>,
    tree: Tree,
)
    requires
        items.len() > 0,
        leads_to(items.skip(1), names, tree),
    ensures
        leads_to(items, names, tree),
{
    let rest = items.skip(1);
    let k = choose|k: int|
        0 <= k < rest.len() && (#[trigger] rest[k]).0 == names[0] && if names.len() == 1 {
            rest[k].1 == tree
        } else {
            rest[k].1 is Directory && leads_to(rest[k].1->Directory_0, names.skip(1), tree)
        };
    assert(rest[k] == items[k + 1]);
}

proof fn lemma_found_file_is_there(
    root: Seq<PartView>,
    place: Seq<PartView>,
    items: Seq<(Seq<u8>, Tree)>,
    file: EntryView,
) -> (names: Seq<Seq<u8>>)
    requires
        files_below(root, place, items).contains(file),
    ensures
        leads_to(items, names, Tree::File(file.size)),
        file.relative_path == place + named(names),
        file.absolute_path == root + file.relative_path,
    decreases items,
{
    let first_place = place.push(PartView::Normal(items[0].0));
    let first = files_at(root, first_place, items[0].1);
    lemma_contained_in_sum(first, files_below(root, place, items.skip(1)));
    if first.contains(file) {
        match items[0].1 {
            Tree::File(size) => {
                let none = Seq::<Seq<u8>>::empty();
                lemma_leads_on(items, 0, none, Tree::File(size));
                assert(named(none) =~= Seq::empty());
                assert(place + named(seq![items[0].0] + none) =~= first_place);
                seq![items[0].0] + none
            },
            Tree::Directory(sub) => {
                let names = lemma_found_file_is_there(root, first_place, sub, file);
                lemma_leads_on(items, 0, names, Tree::File(file.size));
                assert(place + named(seq![items[0].0] + names) =~= first_place + named(names));
                seq![items[0].0] + names
            },
            _ => Seq::empty(),
        }
    } else {
        let names = lemma_found_file_is_there(root, place, items.skip(1), file);
        lemma_leads_among_more(items, names, Tree::File(file.size));
        names
    }
}

proof fn lemma_file_is_found(
    root: Seq<PartView>,
    place: Seq<PartView>,
    items: Seq<(Seq<u8>, Tree)>,
    names: Seq<Seq<u8>>,
    size: u64,
)
    requires
        leads_to(items, names, Tree::File(size)),
    ensures
        files_below(root, place, items).contains(
            EntryView {
                relative_path: place + named(names),
                absolute_path: root + (place + named(names)),
                size,
            },
        ),
    decreases names.len(),
{
    let k = choose|k: int|
        0 <= k < items.len() && (#[trigger] items[k]).0 == names[0] && if names.len() == 1 {
            items[k].1 == Tree::File(size)
        } else {
            items[k].1 is Directory && leads_to(
                items[k].1->Directory_0,
                names.skip(1),
                Tree::File(size),
            )
        };
    let below = place.push(PartView::Normal(items[k].0));
    let file = EntryView {
        relative_path: place + named(names),
        absolute_path: root + (place + named(names)),
        size,
    };
    lemma_entry_is_below(root, place, items, k);
    let there = files_at(root, below, items[k].1);
    if names.len() == 1 {
        assert(place + named(names) =~= below);
        assert(there[0] == file);
    } else {
        lemma_file_is_found(root, below, items[k].1->Directory_0, names.skip(1), size);
        assert(place + named(names) =~= below + named(names.skip(1)));
    }
    assert(there.contains(file));
}

/// A walk has found a file exactly if names lead to it: it is then listed below the source under
/// these names, at the source followed by them, with its size.
pub proof fn lemma_walk_finds_what_names_lead_to(
    root: Seq<PartView>,
    items: Seq<(Seq<u8>, Tree)>,
    file: EntryView,
)
    ensures
        walked_all(WalkView::start(root), items).exhausted().entries.contains(file) <==> exists|
            names: Seq<Seq<u8>>,
        |
            {
                &&& #[trigger] leads_to(items, names, Tree::File(file.size))
                &&& file.relative_path == named(names)
                &&& file.absolute_path == root + named(names)
            },
{
    let top = Seq::<PartView>::empty();
    lemma_walk_finds_all(root, items);
    let all = files_below(root, top, items);
    if all.contains(file) {
        let names = lemma_found_file_is_there(root, top, items, file);
        assert(top + named(names) =~= named(names));
        assert(leads_to(items, names, Tree::File(file.size)));
    }
    if exists|names: Seq<Seq<u8>>|
        {
            &&& #[trigger] leads_to(items, names, Tree::File(file.size))
            &&& file.relative_path == named(names)
            &&& file.absolute_path == root + named(names)
        } {
        let names = choose|names: Seq<Seq<u8>>|
            {
                &&& #[trigger] leads_to(items, names, Tree::File(file.size))
                &&& file.relative_path == named(names)
                &&& file.absolute_path == root + named(names)
            };
        lemma_file_is_found(root, top, items, names, file.size);
        assert(top + named(names) =~= named(names));
    }
}

/// Whether names lead to a directory.
pub open spec fn leads_to_directory(
    items: Seq<(Seq<u8>, Tree)>,
    names: Seq<Seq<u8>>,
) -> bool {
    exists|sub: Seq<(Seq<u8>, Tree)>| #[trigger] leads_to(items, names, Tree::Directory(sub))
}

proof fn lemma_found_dir_is_there(
    place: Seq<PartView>,
    items: Seq<(Seq<u8>, Tree)>,
    dir: Seq<PartView>,
) -> (names: Seq<Seq<u8>>)
    requires
        dirs_below(place, items).contains(dir),
    ensures
        leads_to_directory(items, names),
        dir == place + named(names),
    decreases items,
{
    let first_place = place.push(PartView::Normal(items[0].0));
    let first = dirs_at(first_place, items[0].1);
    lemma_contained_in_sum(first, dirs_below(place, items.skip(1)));
    if first.contains(dir) {
        match items[0].1 {
            Tree::Directory(sub) => {
                lemma_contained_in_sum(seq![first_place], dirs_below(first_place, sub));
                if dirs_below(first_place, sub).contains(dir) {
                    let names = lemma_found_dir_is_there(first_place, sub, dir);
                    let end = choose|end: Seq<(Seq<u8>, Tree)>|
                        #[trigger] leads_to(sub, names, Tree::Directory(end));
                    lemma_leads_on(items, 0, names, Tree::Directory(end));
                    assert(place + named(seq![items[0].0] + names) =~= first_place + named(names));
                    seq![items[0].0] + names
                } else {
                    let none = Seq::<Seq<u8>>::empty();
                    lemma_leads_on(items, 0, none, Tree::Directory(sub));
                    assert(named(none) =~= Seq::empty());
                    assert(place + named(seq![items[0].0] + none) =~= first_place);
                    seq![items[0].0] + none
                }
            },
            _ => Seq::empty(),
        }
    } else {
        let names = lemma_found_dir_is_there(place, items.skip(1), dir);
        let end = choose|end: Seq<(Seq<u8>, Tree)>|
            #[trigger] leads_to(items.skip(1), names, Tree::Directory(end));
        lemma_leads_among_more(items, names, Tree::Directory(end));
        names
    }
}

proof fn lemma_dir_is_found(
    place: Seq<PartView>,
    items: Seq<(Seq<u8>, Tree)>,
    names: Seq<Seq<u8>>,
    sub: Seq<(Seq<u8>, Tree)>,
)
    requires
        leads_to(items, names, Tree::Directory(sub)),
    ensures
        dirs_below(place, items).contains(place + named(names)),
    decreases names.len(),
{
    let k = choose|k: int|
        0 <= k < items.len() && (#[trigger] items[k]).0 == names[0] && if names.len() == 1 {
            items[k].1 == Tree::Directory(sub)
        } else {
            items[k].1 is Directory && leads_to(
                items[k].1->Directory_0,
                names.skip(1),
                Tree::Directory(sub),
            )
        };
    let below = place.push(PartView::Normal(items[k].0));
    let inner = items[k].1->Directory_0;
    lemma_entry_is_below(Seq::empty(), place, items, k);
    lemma_contained_in_sum(seq![below], dirs_below(below, inner));
    if names.len() == 1 {
        assert(place + named(names) =~= below);
        assert(seq![below][0] == below);
    } else {
        lemma_dir_is_found(below, inner, names.skip(1), sub);
        assert(place + named(names) =~= below + named(names.skip(1)));
    }
    assert(dirs_at(below, items[k].1).contains(place + named(names)));
}

/// A walk has found a directory exactly if names lead to it, be it empty or not, and lists it
/// under these names.
pub proof fn lemma_walk_finds_the_directories(
    root: Seq<PartView>,
    items: Seq<(Seq<u8>, Tree)>,
    dir: Seq<PartView>,
)
    ensures
        walked_all(WalkView::start(root), items).exhausted().dirs.contains(dir) <==> exists|
            names: Seq<Seq<u8>>,
        | #[trigger] leads_to_directory(items, names) && dir == named(names),
{
    let top = Seq::<PartView>::empty();
    lemma_walk_finds_all(root, items);
    if dirs_below(top, items).contains(dir) {
        let names = lemma_found_dir_is_there(top, items, dir);
        assert(top + named(names) =~= named(names));
        assert(leads_to_directory(items, names));
    }
    if exists|names: Seq<Seq<u8>>|
        #[trigger] leads_to_directory(items, names) && dir == named(names) {
        let names = choose|names: Seq<Seq<u8>>|
            #[trigger] leads_to_directory(items, names) && dir == named(names);
        let end = choose|end: Seq<(Seq<u8>, Tree)>|
            #[trigger] leads_to(items, names, Tree::Directory(end));
        lemma_dir_is_found(top, items, names, end);
        assert(top + named(names) =~= named(names));
    }
}

} // verus!
