//! The bookkeeping of a recursive directory walk: the paths still to visit,
//! with what is known of their kind, and the canonical paths already
//! visited. The file system calls (canonicalising a path, reading its
//! metadata, listing a directory) are made by the caller, who hands the
//! results back here.
use vstd::prelude::*;

use crate::lru::lemma_find;
use crate::order::find;

verus! {

/// What is known of a queued path.
#[derive(Clone, Copy, Debug, PartialEq, Eq, Structural)]
pub enum Kind {
    File,
    Dir,
    Unknown,
}

impl Kind {
    /// The kind that a path's metadata shows.
    pub fn from_metadata(is_dir: bool, is_file: bool) -> (r: Kind)
        ensures
            r == (if is_dir {
                Kind::Dir
            } else if is_file {
                Kind::File
            } else {
                Kind::Unknown
            }),
    {
        if is_dir {
            Kind::Dir
        } else if is_file {
            Kind::File
        } else {
            Kind::Unknown
        }
    }
}

/// Whether a visited path is a directory.
#[derive(Clone, Copy, Debug)]
pub struct FileType {
    is_dir: bool,
}

impl FileType {
    pub closed spec fn spec_is_dir(&self) -> bool {
        self.is_dir
    }

    pub fn is_dir(&self) -> (r: bool)
        ensures
            r == self.spec_is_dir(),
    {
        self.is_dir
    }
}

/// A path that the walk yields, with its type.
#[derive(Debug)]
pub struct DirEntry {
    path: String,
    file_type: FileType,
}

impl DirEntry {
    pub closed spec fn spec_path(&self) -> Seq<char> {
        self.path@
    }

    pub closed spec fn spec_file_type(&self) -> FileType {
        self.file_type
    }

    pub fn path(&self) -> (r: &String)
        ensures
            r@ == self.spec_path(),
    {
        &self.path
    }

    pub fn into_path(self) -> (r: String)
        ensures
            r@ == self.spec_path(),
    {
        self.path
    }

    pub fn file_type(&self) -> (r: FileType)
        ensures
            r == self.spec_file_type(),
    {
        self.file_type
    }
}

/// What the walk does next with a path it reached.
#[derive(Debug)]
pub enum Visit {
    /// The path was visited before, or is neither a file nor a directory.
    Skip,
    /// The path's kind is not known: read its metadata and `resolve` it.
    Stat(String),
    /// The path is a directory: list it and hand the children to `step_dir`.
    List(String),
    /// The path is a file: yield this entry.
    Yield(DirEntry),
}

/// A pending path and its kind.
pub type Pending = (Seq<char>, Kind);

/// `q` with `path` queued as `kind`: a path already queued takes the new
/// kind in its place, a new one goes to the end.
pub open spec fn enqueue(q: Seq<Pending>, path: Seq<char>, kind: Kind) -> Seq<Pending> {
    match find(q, path) {
        Some(i) => q.update(i, (path, kind)),
        None => q.push((path, kind)),
    }
}

/// `q` with each child of known kind queued, in order; children of unknown
/// kind are left out.
pub open spec fn enqueue_children(q: Seq<Pending>, children: Seq<Pending>) -> Seq<Pending>
    decreases children.len(),
{
    if children.len() == 0 {
        q
    } else {
        let before = enqueue_children(q, children.drop_last());
        let c = children.last();
        if c.1 == Kind::Unknown {
            before
        } else {
            enqueue(before, c.0, c.1)
        }
    }
}

/// The state of a directory walk.
pub struct WalkDir {
    visited: Vec<String>,
    unvisited: Vec<(String, Kind)>,
}

impl WalkDir {
    /// The paths still to visit, oldest first.
    pub closed spec fn pending(&self) -> Seq<Pending> {
        self.unvisited@.map_values(|e: (String, Kind)| (e.0@, e.1))
    }

    /// The canonical paths already visited.
    pub closed spec fn visited(&self) -> Set<Seq<char>> {
        Set::new(|p: Seq<char>| exists|i: int| 0 <= i < self.visited@.len() && #[trigger] self.visited@[i]@ == p)
    }

    /// A walk that starts at `path`.
    pub fn new(path: String) -> (r: WalkDir)
        ensures
            r.visited() == Set::<Seq<char>>::empty(),
            r.pending() == seq![(path@, Kind::Unknown)],
    {
        let mut w = WalkDir { visited: Vec::new(), unvisited: Vec::new() };
        proof {
            assert(w.visited() =~= Set::<Seq<char>>::empty());
            assert(w.pending() =~= Seq::<Pending>::empty());
        }
        w.insert(path);
        proof {
            assert(w.pending() =~= seq![(path@, Kind::Unknown)]);
        }
        w
    }

    /// Queues `path`, of unknown kind.
    pub fn insert(&mut self, path: String)
        ensures
            final(self).visited() == old(self).visited(),
            final(self).pending() == enqueue(old(self).pending(), path@, Kind::Unknown),
    {
        self.queue(path, Kind::Unknown);
    }

    fn queue(&mut self, path: String, kind: Kind)
        ensures
            final(self).visited() == old(self).visited(),
            final(self).pending() == enqueue(old(self).pending(), path@, kind),
    {
        let ghost q = self.pending();
        let mut i: usize = 0;
        while i < self.unvisited.len()
            invariant
                i <= self.unvisited@.len(),
                q == self.pending(),
                forall|j: int| 0 <= j < i ==> #[trigger] q[j].0 != path@,
            ensures
                i <= self.unvisited@.len(),
                forall|j: int| 0 <= j < i ==> #[trigger] q[j].0 != path@,
                i < self.unvisited@.len() ==> q[i as int].0 == path@,
            decreases self.unvisited@.len() - i,
        {
            if self.unvisited[i].0 == path {
                break;
            }
            i = i + 1;
        }
        proof {
            lemma_find(q, path@);
        }
        let ghost v0 = self.visited@;
        if i < self.unvisited.len() {
            proof {
                assert(find(q, path@) == Some(i as int));
            }
            self.unvisited.set(i, (path, kind));
        } else {
            self.unvisited.push((path, kind));
        }
        proof {
            assert(self.pending() =~= enqueue(q, path@, kind));
            assert(self.visited@ == v0);
        }
    }

    /// Takes the most recently queued path, with its kind.
    pub fn next_unvisited(&mut self) -> (r: Option<(String, Kind)>)
        ensures
            final(self).visited() == old(self).visited(),
            old(self).pending().len() == 0 ==> r is None && final(self).pending() == old(self).pending(),
            old(self).pending().len() > 0 ==> {
                &&& r is Some
                &&& (r->Some_0.0@, r->Some_0.1) == old(self).pending().last()
                &&& final(self).pending() == old(self).pending().drop_last()
            },
    {
        let ghost q = self.pending();
        let r = self.unvisited.pop();
        proof {
            assert(self.pending() =~= if q.len() > 0 { q.drop_last() } else { q });
        }
        r
    }

    /// Records that the walk reached the canonical path `canon`; true where
    /// it had not been visited before.
    pub fn mark_visited(&mut self, canon: String) -> (fresh: bool)
        ensures
            fresh == !old(self).visited().contains(canon@),
            final(self).visited() == old(self).visited().insert(canon@),
            final(self).pending() == old(self).pending(),
    {
        let mut i: usize = 0;
        while i < self.visited.len()
            invariant
                i <= self.visited@.len(),
                forall|j: int| 0 <= j < i ==> #[trigger] self.visited@[j]@ != canon@,
            decreases self.visited@.len() - i,
        {
            if self.visited[i] == canon {
                proof {
                    assert(self.visited().insert(canon@) =~= self.visited());
                }
                return false;
            }
            i = i + 1;
        }
        let ghost v0 = self.visited@;
        let ghost old_set = self.visited();
        self.visited.push(canon);
        proof {
            assert(!old_set.contains(canon@));
            assert forall|p: Seq<char>| #[trigger] self.visited().contains(p) <==> old_set.insert(canon@).contains(p) by {
                if self.visited().contains(p) {
                    let j = choose|j: int| 0 <= j < self.visited@.len() && #[trigger] self.visited@[j]@ == p;
                    if j < v0.len() {
                        assert(v0[j]@ == p);
                    }
                }
                if old_set.contains(p) {
                    let j = choose|j: int| 0 <= j < v0.len() && #[trigger] v0[j]@ == p;
                    assert(self.visited@[j]@ == p);
                }
                if p == canon@ {
                    assert(self.visited@[v0.len() as int]@ == p);
                }
            }
            assert(self.visited() =~= old_set.insert(canon@));
        }
        true
    }

    /// The entry for a visited file.
    pub fn step_file(&self, path: String) -> (r: DirEntry)
        ensures
            r.spec_path() == path@,
            !r.spec_file_type().spec_is_dir(),
    {
        DirEntry { path, file_type: FileType { is_dir: false } }
    }

    /// The entry for a visited directory; its children of known kind are
    /// queued, the others left out.
    pub fn step_dir(&mut self, path: String, children: Vec<(String, Kind)>) -> (r: DirEntry)
        ensures
            r.spec_path() == path@,
            r.spec_file_type().spec_is_dir(),
            final(self).visited() == old(self).visited(),
            final(self).pending() == enqueue_children(
                old(self).pending(),
                children@.map_values(|e: (String, Kind)| (e.0@, e.1)),
            ),
    {
        let ghost q0 = self.pending();
        let ghost cs = children@.map_values(|e: (String, Kind)| (e.0@, e.1));
        let n = children.len();
        let mut i: usize = 0;
        proof {
            assert(cs.take(0) =~= Seq::<Pending>::empty());
        }
        while i < n
            invariant
                i <= n == children@.len(),
                cs == children@.map_values(|e: (String, Kind)| (e.0@, e.1)),
                self.visited() == old(self).visited(),
                self.pending() == enqueue_children(q0, cs.take(i as int)),
            decreases n - i,
        {
            proof {
                assert(cs.take(i + 1).drop_last() =~= cs.take(i as int));
                assert(cs.take(i + 1).last() == cs[i as int]);
            }
            let k = children[i].1;
            match k {
                Kind::Unknown => {},
                _ => {
                    let p = children[i].0.clone();
                    self.queue(p, k);
                },
            }
            i = i + 1;
        }
        proof {
            assert(cs.take(n as int) =~= cs);
        }
        DirEntry { path, file_type: FileType { is_dir: true } }
    }

    /// Decides what to do with a path of known `kind` that canonicalises
    /// to `canon`.
    pub fn resolve(&self, canon: String, kind: Kind) -> (r: Visit)
        ensures
            match kind {
                Kind::File => r matches Visit::Yield(e) && e.spec_path() == canon@
                    && !e.spec_file_type().spec_is_dir(),
                Kind::Dir => r matches Visit::List(p) && p@ == canon@,
                Kind::Unknown => r is Skip,
            },
    {
        match kind {
            Kind::File => Visit::Yield(self.step_file(canon)),
            Kind::Dir => Visit::List(canon),
            Kind::Unknown => Visit::Skip,
        }
    }

    /// Records that the walk reached `canon`, the canonical form of a queued
    /// path of kind `kind`, and decides what to do with it: a path visited
    /// before is skipped, a path of unknown kind must be looked at first.
    pub fn visit(&mut self, canon: String, kind: Kind) -> (r: Visit)
        ensures
            final(self).visited() == old(self).visited().insert(canon@),
            final(self).pending() == old(self).pending(),
            old(self).visited().contains(canon@) ==> r is Skip,
            !old(self).visited().contains(canon@) ==> match kind {
                Kind::File => r matches Visit::Yield(e) && e.spec_path() == canon@
                    && !e.spec_file_type().spec_is_dir(),
                Kind::Dir => r matches Visit::List(p) && p@ == canon@,
                Kind::Unknown => r matches Visit::Stat(p) && p@ == canon@,
            },
    {
        let c = canon.clone();
        if !self.mark_visited(c) {
            return Visit::Skip;
        }
        match kind {
            Kind::Unknown => Visit::Stat(canon),
            _ => self.resolve(canon, kind),
        }
    }
}

} // verus!
