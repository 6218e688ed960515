//! Paths, taken apart into their components.
use vstd::prelude::*;

verus! {

/// One component of a path. Names are kept as the bytes that the system uses for them, so
/// that a name in any encoding can be carried.
#[derive(Debug)]
pub enum PathPart {
    /// A drive or share that a path starts with.
    Prefix(Vec<u8>),
    Root,
    Current,
    Parent,
    Normal(Vec<u8>),
}

/// The model of a component.
pub enum PartView {
    Prefix(Seq<u8>),
    Root,
    Current,
    Parent,
    Normal(Seq<u8>),
}

/// A path as the sequence of its components. Two paths with the same components are the
/// same path, however they were written.
#[derive(Debug)]
pub struct FilePath {
    pub parts: Vec<PathPart>,
}

impl View for PathPart {
    type V = PartView;

    open spec fn view(&self) -> PartView {
        match self {
            PathPart::Prefix(bytes) => PartView::Prefix(bytes@),
            PathPart::Root => PartView::Root,
            PathPart::Current => PartView::Current,
            PathPart::Parent => PartView::Parent,
            PathPart::Normal(bytes) => PartView::Normal(bytes@),
        }
    }
}

impl View for FilePath {
    type V = Seq<PartView>;

    open spec fn view(&self) -> Seq<PartView> {
        self.parts@.map_values(|part: PathPart| part@)
    }
}

/// The models of a list of paths.
pub open spec fn path_views(paths: Seq<FilePath>) -> Seq<Seq<PartView>> {
    paths.map_values(|path: FilePath| path@)
}

/// The name that a path ends in, if it ends in a name.
pub open spec fn file_name_of(path: Seq<PartView>) -> Option<Seq<u8>> {
    if path.len() > 0 {
        match path.last() {
            PartView::Normal(name) => Some(name),
            _ => None,
        }
    } else {
        None
    }
}

/// `path` without the name that it ends in.
pub open spec fn directory_of(path: Seq<PartView>) -> Seq<PartView> {
    if file_name_of(path) is Some {
        path.drop_last()
    } else {
        path
    }
}

/// The prefix that a path starts with, or nothing.
pub open spec fn prefix_of(path: Seq<PartView>) -> Seq<PartView> {
    if path.len() > 0 && path[0] is Prefix {
        path.take(1)
    } else {
        Seq::empty()
    }
}

/// `other` as seen from `base`: `other` itself when it names its own start, else `base`
/// followed by `other`.
pub open spec fn joined(base: Seq<PartView>, other: Seq<PartView>) -> Seq<PartView> {
    if other.len() > 0 && other[0] is Prefix {
        other
    } else if other.len() > 0 && other[0] is Root {
        prefix_of(base) + other
    } else if other.len() > 0 && other[0] is Current && base.len() > 0 {
        base + other.skip(1)
    } else {
        base + other
    }
}

/// What follows `base` in `path`, if `path` starts with `base`.
pub open spec fn stripped(path: Seq<PartView>, base: Seq<PartView>) -> Option<Seq<PartView>> {
    if base.len() <= path.len() && path.take(base.len() as int) == base {
        Some(path.skip(base.len() as int))
    } else {
        None
    }
}

/// A path that stays below whatever it is joined to: a sequence of names.
pub open spec fn is_descent(path: Seq<PartView>) -> bool {
    forall|i: int| 0 <= i < path.len() ==> (#[trigger] path[i]) is Normal
}

fn same_bytes(a: &Vec<u8>, b: &Vec<u8>) -> (same: bool)
    ensures
        same == (a@ == b@),
{
    let same = *a == *b;
    assert(same ==> a@ =~= b@);
    same
}

impl Clone for PathPart {
    fn clone(&self) -> (other: Self)
        ensures
            other@ == self@,
    {
        match self {
            PathPart::Prefix(bytes) => PathPart::Prefix(bytes.clone()),
            PathPart::Root => PathPart::Root,
            PathPart::Current => PathPart::Current,
            PathPart::Parent => PathPart::Parent,
            PathPart::Normal(bytes) => PathPart::Normal(bytes.clone()),
        }
    }
}

impl PathPart {
    /// Whether the two components are the same.
    pub fn same(&self, other: &PathPart) -> (same: bool)
        ensures
            same == (self@ == other@),
    {
        match (self, other) {
            (PathPart::Prefix(a), PathPart::Prefix(b)) => same_bytes(a, b),
            (PathPart::Root, PathPart::Root) => true,
            (PathPart::Current, PathPart::Current) => true,
            (PathPart::Parent, PathPart::Parent) => true,
            (PathPart::Normal(a), PathPart::Normal(b)) => same_bytes(a, b),
            _ => false,
        }
    }
}

/// Byte strings in dictionary order.
pub open spec fn bytes_precede(a: Seq<u8>, b: Seq<u8>) -> bool
    decreases a.len(),
{
    if b.len() == 0 {
        false
    } else if a.len() == 0 {
        true
    } else if a[0] != b[0] {
        a[0] < b[0]
    } else {
        bytes_precede(a.skip(1), b.skip(1))
    }
}

/// The place of a component's kind in the order of components.
pub open spec fn part_rank(part: PartView) -> int {
    match part {
        PartView::Prefix(_) => 0,
        PartView::Root => 1,
        PartView::Current => 2,
        PartView::Parent => 3,
        PartView::Normal(_) => 4,
    }
}

/// Components in order: by kind, then by name.
pub open spec fn part_precedes(a: PartView, b: PartView) -> bool {
    match (a, b) {
        (PartView::Prefix(x), PartView::Prefix(y)) => bytes_precede(x, y),
        (PartView::Normal(x), PartView::Normal(y)) => bytes_precede(x, y),
        _ => part_rank(a) < part_rank(b),
    }
}

/// Paths in dictionary order of their components.
pub open spec fn path_precedes(a: Seq<PartView>, b: Seq<PartView>) -> bool
    decreases a.len(),
{
    if b.len() == 0 {
        false
    } else if a.len() == 0 {
        true
    } else if a[0] != b[0] {
        part_precedes(a[0], b[0])
    } else {
        path_precedes(a.skip(1), b.skip(1))
    }
}

proof fn lemma_bytes_total(a: Seq<u8>, b: Seq<u8>)
    ensures
        bytes_precede(a, b) || bytes_precede(b, a) || a == b,
        !(bytes_precede(a, b) && bytes_precede(b, a)),
        !bytes_precede(a, a),
    decreases a.len(),
{
    if a.len() > 0 {
        lemma_bytes_total(a.skip(1), a.skip(1));
    }
    if a.len() > 0 && b.len() > 0 {
        lemma_bytes_total(a.skip(1), b.skip(1));
        if a[0] == b[0] && a.skip(1) == b.skip(1) {
            assert(a =~= seq![a[0]] + a.skip(1));
            assert(b =~= seq![b[0]] + b.skip(1));
        }
    } else if a.len() == b.len() {
        assert(a =~= b);
    }
}

proof fn lemma_bytes_transitive(a: Seq<u8>, b: Seq<u8>, c: Seq<u8>)
    requires
        bytes_precede(a, b),
        bytes_precede(b, c),
    ensures
        bytes_precede(a, c),
    decreases a.len(),
{
    if a.len() > 0 && a[0] == b[0] && b[0] == c[0] {
        lemma_bytes_transitive(a.skip(1), b.skip(1), c.skip(1));
    }
}

proof fn lemma_part_order(a: PartView, b: PartView, c: PartView)
    ensures
        part_precedes(a, b) || part_precedes(b, a) || a == b,
        !(part_precedes(a, b) && part_precedes(b, a)),
        !part_precedes(a, a),
        part_precedes(a, b) && part_precedes(b, c) ==> part_precedes(a, c),
{
    match (a, b) {
        (PartView::Prefix(x), PartView::Prefix(y)) => {
            lemma_bytes_total(x, y);
            if let PartView::Prefix(z) = c {
                if bytes_precede(x, y) && bytes_precede(y, z) {
                    lemma_bytes_transitive(x, y, z);
                }
            }
        },
        (PartView::Normal(x), PartView::Normal(y)) => {
            lemma_bytes_total(x, y);
            if let PartView::Normal(z) = c {
                if bytes_precede(x, y) && bytes_precede(y, z) {
                    lemma_bytes_transitive(x, y, z);
                }
            }
        },
        _ => {
            match a {
                PartView::Prefix(x) => lemma_bytes_total(x, x),
                PartView::Normal(x) => lemma_bytes_total(x, x),
                _ => {},
            }
        },
    }
}

/// Of two different paths exactly one comes first, and no path comes before itself.
pub proof fn lemma_path_order_total(a: Seq<PartView>, b: Seq<PartView>)
    ensures
        path_precedes(a, b) || path_precedes(b, a) || a == b,
        !(path_precedes(a, b) && path_precedes(b, a)),
        !path_precedes(a, a),
    decreases a.len(),
{
    if a.len() > 0 {
        lemma_path_order_total(a.skip(1), a.skip(1));
    }
    if a.len() > 0 && b.len() > 0 {
        lemma_part_order(a[0], b[0], a[0]);
        lemma_path_order_total(a.skip(1), b.skip(1));
        if a[0] == b[0] && a.skip(1) == b.skip(1) {
            assert(a =~= seq![a[0]] + a.skip(1));
            assert(b =~= seq![b[0]] + b.skip(1));
        }
    } else if a.len() == b.len() {
        assert(a =~= b);
    }
}

/// The order of paths is transitive.
pub proof fn lemma_path_order_transitive(a: Seq<PartView>, b: Seq<PartView>, c: Seq<PartView>)
    requires
        path_precedes(a, b),
        path_precedes(b, c),
    ensures
        path_precedes(a, c),
    decreases a.len(),
{
    if a.len() > 0 {
        lemma_part_order(a[0], b[0], c[0]);
        lemma_part_order(b[0], a[0], c[0]);
        if a[0] == b[0] && b[0] == c[0] {
            lemma_path_order_transitive(a.skip(1), b.skip(1), c.skip(1));
        }
    }
}

/// A path below a base, seen from the base, is what was joined to the base.
pub proof fn lemma_strip_undoes_join(base: Seq<PartView>, below: Seq<PartView>)
    requires
        is_descent(below),
    ensures
        stripped(joined(base, below), base) == Some(below),
{
    assert(joined(base, below) == base + below);
    assert((base + below).take(base.len() as int) =~= base);
    assert((base + below).skip(base.len() as int) =~= below);
}

fn bytes_less(a: &Vec<u8>, b: &Vec<u8>) -> (less: bool)
    ensures
        less == bytes_precede(a@, b@),
{
    let mut i: usize = 0;
    assert(a@.skip(0) =~= a@);
    assert(b@.skip(0) =~= b@);
    while i < a.len() && i < b.len()
        invariant
            i <= a.len(),
            i <= b.len(),
            bytes_precede(a@, b@) == bytes_precede(a@.skip(i as int), b@.skip(i as int)),
        decreases a.len() - i,
    {
        if a[i] != b[i] {
            return a[i] < b[i];
        }
        assert(a@.skip(i as int).skip(1) =~= a@.skip(i + 1));
        assert(b@.skip(i as int).skip(1) =~= b@.skip(i + 1));
        i += 1;
    }
    i < b.len()
}

impl PathPart {
    fn rank(&self) -> (rank: u8)
        ensures
            rank == part_rank(self@),
    {
        match self {
            PathPart::Prefix(_) => 0,
            PathPart::Root => 1,
            PathPart::Current => 2,
            PathPart::Parent => 3,
            PathPart::Normal(_) => 4,
        }
    }

    /// Whether this component comes before `other`.
    pub fn precedes(&self, other: &PathPart) -> (less: bool)
        ensures
            less == part_precedes(self@, other@),
    {
        match (self, other) {
            (PathPart::Prefix(a), PathPart::Prefix(b)) => bytes_less(a, b),
            (PathPart::Normal(a), PathPart::Normal(b)) => bytes_less(a, b),
            _ => self.rank() < other.rank(),
        }
    }
}

impl Clone for FilePath {
    fn clone(&self) -> (other: Self)
        ensures
            other@ == self@,
    {
        self.range(0, self.parts.len())
    }
}

impl FilePath {
    /// The path with these components.
    pub fn new(parts: Vec<PathPart>) -> (path: FilePath)
        ensures
            path@ == parts@.map_values(|part: PathPart| part@),
            path.parts == parts,
    {
        FilePath { parts }
    }

    /// The components from `start` up to `end`.
    fn range(&self, start: usize, end: usize) -> (path: FilePath)
        requires
            start <= end <= self.parts@.len(),
        ensures
            path@ == self@.subrange(start as int, end as int),
    {
        let mut path = FilePath { parts: Vec::new() };
        path.extend(self, start, end);
        path
    }

    /// Appends the components of `other` from `start` up to `end`.
    fn extend(&mut self, other: &FilePath, start: usize, end: usize)
        requires
            start <= end <= other.parts@.len(),
        ensures
            final(self)@ == old(self)@ + other@.subrange(start as int, end as int),
    {
        let mut i: usize = start;
        while i < end
            invariant
                start <= i <= end <= other.parts@.len(),
                self@ == old(self)@ + other@.subrange(start as int, i as int),
            decreases end - i,
        {
            let ghost before = self@;
            self.parts.push(other.parts[i].clone());
            assert(self@ =~= before.push(other@[i as int]));
            i += 1;
            assert(other@.subrange(start as int, i as int) =~= other@.subrange(
                start as int,
                i - 1,
            ).push(other@[i - 1]));
        }
    }

    /// The name that the path ends in, if it ends in a name.
    pub fn file_name(&self) -> (name: Option<&Vec<u8>>)
        ensures
            match name {
                Some(bytes) => file_name_of(self@) == Some(bytes@),
                None => file_name_of(self@) is None,
            },
            match name {
                Some(bytes) => self@.len() > 0 && self@.last() == PartView::Normal(bytes@),
                None => self@.len() == 0 || !(self@.last() is Normal),
            },
    {
        if self.parts.len() == 0 {
            return None;
        }
        match &self.parts[self.parts.len() - 1] {
            PathPart::Normal(name) => Some(name),
            _ => None,
        }
    }

    /// The entry `name` of the directory at this path.
    pub fn child(&self, name: &Vec<u8>) -> (path: FilePath)
        ensures
            path@ == self@.push(PartView::Normal(name@)),
    {
        let mut path = self.clone();
        path.parts.push(PathPart::Normal(name.clone()));
        assert(path@ =~= self@.push(PartView::Normal(name@)));
        path
    }

    /// `other` as seen from this path.
    pub fn join(&self, other: &FilePath) -> (path: FilePath)
        ensures
            path@ == joined(self@, other@),
            other@.len() == 0 ==> path@ == self@,
            other@.len() > 0 && (other@[0] is Normal || other@[0] is Parent) ==> path@ == self@
                + other@,
            other@.len() > 0 && other@[0] is Prefix ==> path@ == other@,
            other@.len() > 0 && other@[0] is Root ==> path@ == (if self@.len() > 0 && self@[0]
                is Prefix {
                seq![self@[0]]
            } else {
                Seq::empty()
            }) + other@,
            other@.len() > 0 && other@[0] is Current ==> path@ == (if self@.len() > 0 {
                self@ + other@.skip(1)
            } else {
                other@
            }),
    {
        let n: usize = other.parts.len();
        let mut path = self.clone();
        let mut start: usize = 0;
        if n > 0 {
            match &other.parts[0] {
                PathPart::Prefix(_) => {
                    path = FilePath { parts: Vec::new() };
                },
                PathPart::Root => {
                    let keep: usize = if self.parts.len() > 0 {
                        match &self.parts[0] {
                            PathPart::Prefix(_) => 1,
                            _ => 0,
                        }
                    } else {
                        0
                    };
                    path = self.range(0, keep);
                },
                PathPart::Current => {
                    if self.parts.len() > 0 {
                        start = 1;
                    }
                },
                _ => {},
            }
        }
        path.extend(other, start, n);
        assert(path@ =~= joined(self@, other@));
        proof {
            lemma_joined(self@, other@);
        }
        path
    }

    /// What follows `base` in this path, if the path starts with `base`.
    pub fn strip_prefix(&self, base: &FilePath) -> (rest: Option<FilePath>)
        ensures
            match rest {
                Some(path) => stripped(self@, base@) == Some(path@),
                None => stripped(self@, base@) is None,
            },
            match rest {
                Some(path) => self@ == base@ + path@,
                None => forall|any: Seq<PartView>| self@ != #[trigger] (base@ + any),
            },
    {
        let n: usize = base.parts.len();
        proof {
            lemma_stripped(self@, base@);
        }
        if n > self.parts.len() {
            return None;
        }
        let mut i: usize = 0;
        while i < n
            invariant
                n == base.parts@.len(),
                i <= n <= self.parts@.len(),
                forall|k: int| 0 <= k < i ==> self@[k] == base@[k],
            decreases n - i,
        {
            if !self.parts[i].same(&base.parts[i]) {
                assert(self@.take(n as int)[i as int] != base@[i as int]);
                return None;
            }
            i += 1;
        }
        assert(self@.take(n as int) =~= base@);
        let rest = self.range(n, self.parts.len());
        assert(rest@ =~= self@.skip(n as int));
        Some(rest)
    }

    /// Whether this path comes before `other`.
    pub fn precedes(&self, other: &FilePath) -> (less: bool)
        ensures
            less == path_precedes(self@, other@),
    {
        let mut i: usize = 0;
        assert(self@.skip(0) =~= self@);
        assert(other@.skip(0) =~= other@);
        while i < self.parts.len() && i < other.parts.len()
            invariant
                i <= self.parts@.len(),
                i <= other.parts@.len(),
                path_precedes(self@, other@) == path_precedes(
                    self@.skip(i as int),
                    other@.skip(i as int),
                ),
            decreases self.parts@.len() - i,
        {
            if !self.parts[i].same(&other.parts[i]) {
                return self.parts[i].precedes(&other.parts[i]);
            }
            assert(self@.skip(i as int).skip(1) =~= self@.skip(i + 1));
            assert(other@.skip(i as int).skip(1) =~= other@.skip(i + 1));
            i += 1;
        }
        i < other.parts.len()
    }
}

/// A path with names only, joined to a base, comes after all components of the base; one that
/// starts at a root or with a prefix takes the place of the base.
pub proof fn lemma_joined(base: Seq<PartView>, other: Seq<PartView>)
    ensures
        other.len() == 0 ==> joined(base, other) == base,
        other.len() > 0 && (other[0] is Normal || other[0] is Parent) ==> joined(base, other)
            == base + other,
        other.len() > 0 && other[0] is Prefix ==> joined(base, other) == other,
        other.len() > 0 && other[0] is Root ==> joined(base, other) == (if base.len() > 0
            && base[0] is Prefix {
            seq![base[0]]
        } else {
            Seq::empty()
        }) + other,
        other.len() > 0 && other[0] is Current ==> joined(base, other) == (if base.len() > 0 {
            base + other.skip(1)
        } else {
            other
        }),
{
    assert(base + Seq::<PartView>::empty() =~= base);
    if other.len() == 0 {
        assert(base + other =~= base);
    }
    if base.len() > 0 {
        assert(base.take(1) =~= seq![base[0]]);
    } else {
        assert(base + other =~= other);
    }
}

/// A path can be seen from a base exactly if it is the base followed by something, and is seen
/// as that.
pub proof fn lemma_stripped(path: Seq<PartView>, base: Seq<PartView>)
    ensures
        match stripped(path, base) {
            Some(rest) => path == base + rest,
            None => forall|any: Seq<PartView>| path != #[trigger] (base + any),
        },
{
    match stripped(path, base) {
        Some(rest) => {
            assert(path =~= path.take(base.len() as int) + path.skip(base.len() as int));
        },
        None => {
            assert forall|any: Seq<PartView>| path != #[trigger] (base + any) by {
                assert((base + any).take(base.len() as int) =~= base);
            }
        },
    }
}

/// A name and what it is taken from make up the path again.
pub proof fn lemma_name_ends_the_path(path: Seq<PartView>)
    ensures
        file_name_of(path) is Some <==> path.len() > 0 && path.last() is Normal,
        file_name_of(path) is Some ==> path == directory_of(path).push(
            PartView::Normal(file_name_of(path)->0),
        ),
        file_name_of(path) is None ==> directory_of(path) == path,
{
    if path.len() > 0 {
        assert(path =~= path.drop_last().push(path.last()));
    }
}

/// Whether two sequences are the same up to `k`.
pub open spec fn same_up_to<T>(a: Seq<T>, b: Seq<T>, k: int) -> bool {
    0 <= k <= a.len() && k <= b.len() && forall|i: int| 0 <= i < k ==> #[trigger] a[i] == b[i]
}

/// A byte string comes before another one if it is the beginning of it, or has the smaller byte
/// where they first differ.
pub proof fn lemma_bytes_in_dictionary_order(a: Seq<u8>, b: Seq<u8>, k: int)
    requires
        same_up_to(a, b, k),
        k == a.len() || k == b.len() || a[k] != b[k],
    ensures
        bytes_precede(a, b) == if k == b.len() {
            false
        } else {
            k == a.len() || a[k] < b[k]
        },
    decreases k,
{
    if k > 0 {
        assert(a[0] == b[0]);
        assert(same_up_to(a.skip(1), b.skip(1), k - 1));
        lemma_bytes_in_dictionary_order(a.skip(1), b.skip(1), k - 1);
    }
}

/// A path comes before another one if it is the beginning of it, or has the component that comes
/// first where they first differ: a prefix before a root, that before the current and the parent
/// directory, and these before names, which are in dictionary order.
pub proof fn lemma_paths_in_dictionary_order(a: Seq<PartView>, b: Seq<PartView>, k: int)
    requires
        same_up_to(a, b, k),
        k == a.len() || k == b.len() || a[k] != b[k],
    ensures
        path_precedes(a, b) == if k == b.len() {
            false
        } else if k == a.len() {
            true
        } else {
            match (a[k], b[k]) {
                (PartView::Prefix(x), PartView::Prefix(y)) => bytes_precede(x, y),
                (PartView::Normal(x), PartView::Normal(y)) => bytes_precede(x, y),
                (PartView::Prefix(_), _) => true,
                (_, PartView::Prefix(_)) => false,
                (PartView::Root, _) => true,
                (_, PartView::Root) => false,
                (PartView::Current, _) => true,
                (_, PartView::Current) => false,
                (PartView::Parent, _) => true,
                (_, PartView::Parent) => false,
            }
        },
    decreases k,
{
    if k > 0 {
        assert(a[0] == b[0]);
        assert(same_up_to(a.skip(1), b.skip(1), k - 1));
        lemma_paths_in_dictionary_order(a.skip(1), b.skip(1), k - 1);
    }
}

} // verus!
