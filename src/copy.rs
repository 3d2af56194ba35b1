//! The copy stage: argument and destination checks before a run, where each
//! discovered entry lands under the destination, which directories still need
//! creating, and the events a transfer reports.
use std::path::Path;
use vstd::prelude::*;

verus! {

/// Size of the transfer buffer: no single read moves more bytes than this.
pub const BUFFER_SIZE: u64 = 10_000_000;

/// A change to the run's statistics, reported by the copy stage.
#[derive(Clone, PartialEq, Debug)]
pub enum StatsChange {
    /// One entry finished.
    FileDone,
    /// One entry of the given size was discovered.
    BytesTotal(u64),
    /// A chunk of an entry moved: path, chunk size, bytes done, entry size.
    Current(String, u32, u64, u64),
}

/// What a worker reports to the statistics loop.
#[derive(Debug)]
pub enum WorkerEvent {
    Stat(StatsChange),
}

/// An operation over a set of source roots.
pub trait Operation {
    /// The text of the roots to walk, in order.
    spec fn roots(&self) -> Seq<Seq<char>>;

    /// The roots to walk, in order.
    fn search_path(&self) -> (r: Vec<String>)
        ensures
            paths_view(r@) == self.roots(),
    ;
}

/// A copy of `sources` to `dest`.
pub struct OperationCopy {
    sources: Vec<String>,
    dest: String,
}

/// Why an operation cannot start.
#[derive(Debug)]
pub enum OperationError {
    ArgumentsMissing,
    DirOverFile { src: String, dest: String },
}

/// What stands at the destination path before the run.
#[derive(Clone, Copy, PartialEq, Eq, Debug)]
pub enum DestKind {
    Absent,
    File,
    Dir,
}

/// Where a run copies into.
#[derive(Clone, Copy, PartialEq, Eq, Debug)]
pub struct Resolution {
    /// Entries go into the destination's parent directory (the destination is
    /// an existing file); otherwise into the destination itself.
    pub into_parent: bool,
    /// The directory copied into has to be created first.
    pub create_dir: bool,
}

/// The text of each path.
pub open spec fn paths_view(v: Seq<String>) -> Seq<Seq<char>> {
    v.map_values(|s: String| s@)
}

/// Index of the first directory among the sources, if any.
pub open spec fn first_dir(is_dir: Seq<bool>) -> Option<int>
    decreases is_dir.len(),
{
    if is_dir.len() == 0 {
        None
    } else {
        match first_dir(is_dir.drop_last()) {
            Some(i) => Some(i),
            None => if is_dir.last() {
                Some(is_dir.len() - 1)
            } else {
                None
            },
        }
    }
}

proof fn lemma_first_dir(is_dir: Seq<bool>)
    ensures
        match first_dir(is_dir) {
            Some(i) => 0 <= i < is_dir.len() && is_dir[i] && forall|j: int|
                0 <= j < i ==> !#[trigger] is_dir[j],
            None => forall|j: int| 0 <= j < is_dir.len() ==> !#[trigger] is_dir[j],
        },
    decreases is_dir.len(),
{
    if is_dir.len() > 0 {
        lemma_first_dir(is_dir.drop_last());
        assert(forall|j: int| 0 <= j < is_dir.len() - 1 ==> is_dir.drop_last()[j] == is_dir[j]);
    }
}

impl Operation for OperationCopy {
    open spec fn roots(&self) -> Seq<Seq<char>> {
        self.sources()
    }

    fn search_path(&self) -> (r: Vec<String>) {
        let r = self.sources.clone();
        proof {
            assert(r@ =~= self.sources@);
        }
        r
    }
}

impl OperationCopy {
    /// The source roots, in the order given.
    pub closed spec fn sources(&self) -> Seq<Seq<char>> {
        paths_view(self.sources@)
    }

    /// The destination path as given.
    pub closed spec fn dest(&self) -> Seq<char> {
        self.dest@
    }

    /// Accepts the command line's sources and destination: there must be at
    /// least one source and a destination.
    pub fn new(source: Vec<String>, dest: Option<String>) -> (r: Result<Self, OperationError>)
        ensures
            (source@.len() == 0 || dest.is_none()) <==> r is Err,
            r is Err ==> r->Err_0 is ArgumentsMissing,
            r is Ok ==> r->Ok_0.sources() == paths_view(source@) && r->Ok_0.dest() == dest->Some_0@,
    {
        if source.len() == 0 {
            return Err(OperationError::ArgumentsMissing);
        }
        match dest {
            Some(d) => Ok(OperationCopy { sources: source, dest: d }),
            None => Err(OperationError::ArgumentsMissing),
        }
    }

    /// The source roots, in the order given.
    pub fn sources_list(&self) -> (r: Vec<String>)
        ensures
            paths_view(r@) == self.sources(),
    {
        let r = self.sources.clone();
        proof {
            assert(r@ =~= self.sources@);
        }
        r
    }

    /// Decides where the run copies into, given what stands at the destination
    /// and which sources are directories. A directory cannot be copied onto an
    /// existing file: the first such source is named in the error.
    pub fn resolve(&self, dest_kind: DestKind, source_is_dir: &Vec<bool>) -> (r: Result<
        Resolution,
        OperationError,
    >)
        requires
            source_is_dir@.len() == self.sources().len(),
        ensures
            r is Err <==> (dest_kind == DestKind::File && first_dir(source_is_dir@) is Some),
            r is Err ==> match r->Err_0 {
                OperationError::DirOverFile { src, dest } => src@ == self.sources()[first_dir(
                    source_is_dir@,
                )->Some_0] && dest@ == self.dest(),
                OperationError::ArgumentsMissing => false,
            },
            r is Ok ==> r->Ok_0 == (Resolution {
                into_parent: dest_kind == DestKind::File,
                create_dir: dest_kind == DestKind::Absent,
            }),
    {
        let dest_is_file = match dest_kind {
            DestKind::File => true,
            _ => false,
        };
        let mut i: usize = 0;
        while i < source_is_dir.len()
            invariant
                0 <= i <= source_is_dir@.len(),
                source_is_dir@.len() == self.sources@.len(),
                dest_is_file == (dest_kind == DestKind::File),
                forall|j: int| 0 <= j < i ==> !(dest_is_file && #[trigger] source_is_dir@[j]),
            decreases source_is_dir@.len() - i,
        {
            if dest_is_file && source_is_dir[i] {
                proof {
                    lemma_first_dir(source_is_dir@);
                    match first_dir(source_is_dir@) {
                        Some(k) => {
                            if k < i {
                                assert(source_is_dir@[k]);
                            }
                            if k > i {
                                assert(!source_is_dir@[i as int]);
                            }
                        },
                        None => {
                            assert(!source_is_dir@[i as int]);
                        },
                    }
                }
                return Err(
                    OperationError::DirOverFile {
                        src: self.sources[i].clone(),
                        dest: self.dest.clone(),
                    },
                );
            }
            i = i + 1;
        }
        proof {
            lemma_first_dir(source_is_dir@);
            if dest_is_file {
                match first_dir(source_is_dir@) {
                    Some(k) => {
                        assert(!(dest_is_file && source_is_dir@[k]));
                    },
                    None => {},
                }
            }
        }
        Ok(
            Resolution {
                into_parent: dest_is_file,
                create_dir: match dest_kind {
                    DestKind::Absent => true,
                    _ => false,
                },
            },
        )
    }
}

pub uninterp spec fn file_name_of(p: Seq<char>) -> Option<Seq<char>>;

pub uninterp spec fn parent_of(p: Seq<char>) -> Option<Seq<char>>;

/// `rel` appended to `base` as a path: an absolute `rel` replaces `base`;
/// otherwise a `/` separates the two unless `base` is empty or already ends
/// with one.
pub open spec fn joined_path(base: Seq<char>, rel: Seq<char>) -> Seq<char> {
    if rel.len() > 0 && rel[0] == '/' {
        rel
    } else if base.len() == 0 || base.last() == '/' {
        base + rel
    } else {
        base + seq!['/'] + rel
    }
}

pub uninterp spec fn relative_path_of(path: Seq<char>, base: Seq<char>) -> Option<Seq<char>>;

/// Relies on `std::path::Path::file_name`: the last component of `p`, if it
/// is a normal one, as text.
#[verifier::external_body]
fn file_name(p: &String) -> (r: Option<String>)
    ensures
        r matches Some(n) ==> file_name_of(p@) == Some(n@),
        r is None ==> file_name_of(p@) is None,
{
    Path::new(p).file_name().map(|n| n.to_string_lossy().into_owned())
}

/// Relies on `std::path::Path::parent`: `p` without its last component, if
/// it has one, as text.
#[verifier::external_body]
fn parent(p: &String) -> (r: Option<String>)
    ensures
        r matches Some(d) ==> parent_of(p@) == Some(d@),
        r is None ==> parent_of(p@) is None,
{
    Path::new(p).parent().map(|d| d.to_string_lossy().into_owned())
}

/// Relies on `std::path::Path::join` (on Unix, where `/` is the separator
/// and a path is absolute when it starts with `/`): `rel` appended to `base`.
#[verifier::external_body]
fn join(base: &String, rel: &String) -> (r: String)
    ensures
        r@ == joined_path(base@, rel@),
{
    Path::new(base).join(rel).to_string_lossy().into_owned()
}

/// Relies on `pathdiff::diff_paths`: the path that leads from `base` to
/// `path`, when there is one, as text.
#[verifier::external_body]
fn diff_paths(path: &String, base: &String) -> (r: Option<String>)
    ensures
        r matches Some(d) ==> relative_path_of(path@, base@) == Some(d@),
        r is None ==> relative_path_of(path@, base@) is None,
{
    pathdiff::diff_paths(path, base).map(|d| d.to_string_lossy().into_owned())
}

/// Where an entry lands, relative to the directory copied into: a file root
/// copies as its own name; an entry under a directory root keeps its path
/// below the root, under a directory named after the root.
pub open spec fn relative_target(root: Seq<char>, root_is_file: bool, path: Seq<char>) -> Option<
    Seq<char>,
> {
    if root_is_file {
        file_name_of(path)
    } else {
        match (file_name_of(root), relative_path_of(path, root)) {
            (Some(n), Some(d)) => Some(joined_path(n, d)),
            _ => None,
        }
    }
}

/// The destination file of an entry and the directory that has to exist
/// for it.
pub open spec fn target_of(dest_dir: Seq<char>, root: Seq<char>, root_is_file: bool, path: Seq<char>) -> Option<
    (Seq<char>, Seq<char>),
> {
    match relative_target(root, root_is_file, path) {
        Some(rel) => {
            let file = joined_path(dest_dir, rel);
            match parent_of(file) {
                Some(dir) => Some((file, dir)),
                None => None,
            }
        },
        None => None,
    }
}

/// Destination of one entry.
pub struct EntryTarget {
    pub file: String,
    pub dir: String,
}

/// Computes where the entry `path`, found under the source root `root`,
/// goes below `dest_dir`.
pub fn entry_target(dest_dir: &String, root: &String, root_is_file: bool, path: &String) -> (r:
    Option<EntryTarget>)
    ensures
        r is Some <==> target_of(dest_dir@, root@, root_is_file, path@) is Some,
        r matches Some(t) ==> target_of(dest_dir@, root@, root_is_file, path@) == Some(
            (t.file@, t.dir@),
        ),
{
    let rel = if root_is_file {
        match file_name(path) {
            Some(n) => n,
            None => return None,
        }
    } else {
        let name = match file_name(root) {
            Some(n) => n,
            None => return None,
        };
        let below = match diff_paths(path, root) {
            Some(d) => d,
            None => return None,
        };
        join(&name, &below)
    };
    let file = join(dest_dir, &rel);
    match parent(&file) {
        Some(dir) => Some(EntryTarget { file, dir }),
        None => None,
    }
}

/// The directories already made during one worker's run.
pub struct DirMemo {
    seen: Vec<String>,
}

impl DirMemo {
    /// The directories recorded.
    pub closed spec fn dirs(&self) -> Set<Seq<char>> {
        Set::new(|p: Seq<char>| exists|i: int| 0 <= i < self.seen@.len() && #[trigger] self.seen@[i]@ == p)
    }

    pub fn new() -> (r: Self)
        ensures
            r.dirs() == Set::<Seq<char>>::empty(),
    {
        let r = DirMemo { seen: Vec::new() };
        assert(r.dirs() =~= Set::<Seq<char>>::empty());
        r
    }

    /// Records `dir`; true if it was not recorded before, so that it still
    /// has to be made.
    pub fn first_visit(&mut self, dir: &String) -> (r: bool)
        ensures
            r == !old(self).dirs().contains(dir@),
            final(self).dirs() == old(self).dirs().insert(dir@),
    {
        let mut i: usize = 0;
        while i < self.seen.len()
            invariant
                0 <= i <= self.seen@.len(),
                forall|j: int| 0 <= j < i ==> #[trigger] self.seen@[j]@ != dir@,
            decreases self.seen@.len() - i,
        {
            if self.seen[i] == *dir {
                assert(old(self).dirs().contains(dir@));
                assert(old(self).dirs().insert(dir@) =~= old(self).dirs());
                return false;
            }
            i = i + 1;
        }
        let ghost before = self.seen@;
        self.seen.push(dir.clone());
        proof {
            assert(self.seen@[before.len() as int]@ == dir@);
            assert forall|p: Seq<char>| #![auto] self.dirs().contains(p) == old(self).dirs().insert(
                dir@,
            ).contains(p) by {
                if old(self).dirs().contains(p) {
                    let k = choose|k: int| 0 <= k < before.len() && #[trigger] before[k]@ == p;
                    assert(self.seen@[k]@ == p);
                }
                if self.dirs().contains(p) && p != dir@ {
                    let k = choose|k: int|
                        0 <= k < self.seen@.len() && #[trigger] self.seen@[k]@ == p;
                    assert(k < before.len());
                    assert(before[k]@ == p);
                }
            }
            assert(self.dirs() =~= old(self).dirs().insert(dir@));
        }
        true
    }
}

/// The events of one read of `n` bytes from an entry of `total` bytes of
/// which `done` had moved: a read of `n > 0` bytes reports the chunk, and the
/// completion once the entry is whole; the end of the file reports nothing,
/// but for an empty entry, whose only event is its completion.
pub open spec fn read_events(path: String, done: u64, n: u64, total: u64) -> Seq<StatsChange> {
    if n == 0 {
        if done == 0 && total == 0 {
            seq![StatsChange::FileDone]
        } else {
            Seq::empty()
        }
    } else {
        let d = (done + n) as u64;
        let chunk = seq![StatsChange::Current(path, n as u32, d, total)];
        if d >= total {
            chunk.push(StatsChange::FileDone)
        } else {
            chunk
        }
    }
}

/// Transfer state of the entry being copied.
pub struct EntryProgress {
    path: String,
    done: u64,
    total: u64,
}

impl EntryProgress {
    pub closed spec fn path(&self) -> String {
        self.path
    }

    /// Bytes of the entry moved so far.
    pub closed spec fn done(&self) -> u64 {
        self.done
    }

    /// The entry's size when it was discovered.
    pub closed spec fn total(&self) -> u64 {
        self.total
    }

    pub fn new(path: String, total: u64) -> (r: Self)
        ensures
            r.path() == path,
            r.done() == 0,
            r.total() == total,
    {
        EntryProgress { path, done: 0, total }
    }

    /// Bytes of the entry moved so far.
    pub fn done_bytes(&self) -> (r: u64)
        ensures
            r == self.done(),
    {
        self.done
    }

    /// Accounts for a read of `n` bytes (`0` at the end of the file) and
    /// returns the events to report.
    pub fn on_read(&mut self, n: u64) -> (r: Vec<StatsChange>)
        requires
            n <= BUFFER_SIZE,
            old(self).done() + n <= u64::MAX,
        ensures
            final(self).path() == old(self).path(),
            final(self).total() == old(self).total(),
            final(self).done() == old(self).done() + n,
            r@ == read_events(old(self).path(), old(self).done(), n, old(self).total()),
    {
        let mut r: Vec<StatsChange> = Vec::new();
        if n == 0 {
            if self.done == 0 && self.total == 0 {
                r.push(StatsChange::FileDone);
            }
            proof {
                assert(r@ =~= read_events(old(self).path(), old(self).done(), n, old(self).total()));
            }
            return r;
        }
        self.done = self.done + n;
        r.push(StatsChange::Current(self.path.clone(), n as u32, self.done, self.total));
        if self.done >= self.total {
            r.push(StatsChange::FileDone);
        }
        proof {
            assert(r@ =~= read_events(old(self).path(), old(self).done(), n, old(self).total()));
        }
        r
    }
}

/// The events of a symbolic link of `size` bytes, which is recreated rather
/// than read: one chunk that covers it whole, then its completion.
pub fn link_events(path: String, size: u64) -> (r: Vec<StatsChange>)
    ensures
        r@ == seq![StatsChange::Current(path, size as u32, size, size), StatsChange::FileDone],
{
    let mut r: Vec<StatsChange> = Vec::new();
    r.push(StatsChange::Current(path, size as u32, size, size));
    r.push(StatsChange::FileDone);
    proof {
        assert(r@ =~= seq![StatsChange::Current(path, size as u32, size, size), StatsChange::FileDone]);
    }
    r
}

/// Number of completions among the events.
pub open spec fn completed_count(evs: Seq<StatsChange>) -> int
    decreases evs.len(),
{
    if evs.len() == 0 {
        0
    } else {
        completed_count(evs.drop_last()) + if evs.last() is FileDone {
            1int
        } else {
            0
        }
    }
}

/// Bytes reported moved by the chunks among the events.
pub open spec fn moved_bytes(evs: Seq<StatsChange>) -> int
    decreases evs.len(),
{
    if evs.len() == 0 {
        0
    } else {
        moved_bytes(evs.drop_last()) + match evs.last() {
            StatsChange::Current(_, chunk, _, _) => chunk as int,
            _ => 0,
        }
    }
}

/// Number of discoveries among the events.
pub open spec fn discovered_count(evs: Seq<StatsChange>) -> int
    decreases evs.len(),
{
    if evs.len() == 0 {
        0
    } else {
        discovered_count(evs.drop_last()) + if evs.last() is BytesTotal {
            1int
        } else {
            0
        }
    }
}

/// Bytes announced by the discoveries among the events.
pub open spec fn discovered_bytes(evs: Seq<StatsChange>) -> int
    decreases evs.len(),
{
    if evs.len() == 0 {
        0
    } else {
        discovered_bytes(evs.drop_last()) + match evs.last() {
            StatsChange::BytesTotal(n) => n as int,
            _ => 0,
        }
    }
}

/// Sum of the read sizes.
pub open spec fn read_sum(reads: Seq<u64>) -> int
    decreases reads.len(),
{
    if reads.len() == 0 {
        0
    } else {
        reads[0] + read_sum(reads.drop_first())
    }
}

/// The events of an entry whose reads return `reads`, in order, and then the
/// end of the file, starting with `done` bytes moved.
pub open spec fn entry_events(path: String, done: u64, reads: Seq<u64>, total: u64) -> Seq<
    StatsChange,
>
    decreases reads.len(),
{
    if reads.len() == 0 {
        read_events(path, done, 0, total)
    } else {
        read_events(path, done, reads[0], total) + entry_events(
            path,
            (done + reads[0]) as u64,
            reads.drop_first(),
            total,
        )
    }
}

pub proof fn lemma_counts_concat(a: Seq<StatsChange>, b: Seq<StatsChange>)
    ensures
        completed_count(a + b) == completed_count(a) + completed_count(b),
        moved_bytes(a + b) == moved_bytes(a) + moved_bytes(b),
        discovered_count(a + b) == discovered_count(a) + discovered_count(b),
        discovered_bytes(a + b) == discovered_bytes(a) + discovered_bytes(b),
    decreases b.len(),
{
    if b.len() == 0 {
        assert(a + b =~= a);
    } else {
        lemma_counts_concat(a, b.drop_last());
        assert((a + b).drop_last() =~= a + b.drop_last());
    }
}

pub proof fn lemma_read_sum_positive(reads: Seq<u64>)
    requires
        forall|i: int| 0 <= i < reads.len() ==> #[trigger] reads[i] > 0,
    ensures
        read_sum(reads) >= reads.len(),
    decreases reads.len(),
{
    if reads.len() > 0 {
        lemma_read_sum_positive(reads.drop_first());
    }
}

proof fn lemma_entry_counts(path: String, done: u64, reads: Seq<u64>, total: u64)
    requires
        forall|i: int| 0 <= i < reads.len() ==> 0 < #[trigger] reads[i] <= BUFFER_SIZE,
        done + read_sum(reads) == total,
    ensures
        completed_count(entry_events(path, done, reads, total)) == if reads.len() == 0 && done
            > 0 {
            0int
        } else {
            1
        },
        moved_bytes(entry_events(path, done, reads, total)) == read_sum(reads),
        discovered_count(entry_events(path, done, reads, total)) == 0,
        discovered_bytes(entry_events(path, done, reads, total)) == 0,
    decreases reads.len(),
{
    reveal_with_fuel(completed_count, 3);
    reveal_with_fuel(moved_bytes, 3);
    reveal_with_fuel(discovered_count, 3);
    reveal_with_fuel(discovered_bytes, 3);
    if reads.len() == 0 {
        if done == 0 && total == 0 {
            assert(completed_count(seq![StatsChange::FileDone]) == 1) by {
                assert(seq![StatsChange::FileDone].drop_last() =~= Seq::<StatsChange>::empty());
            }
            assert(moved_bytes(seq![StatsChange::FileDone]) == 0) by {
                assert(seq![StatsChange::FileDone].drop_last() =~= Seq::<StatsChange>::empty());
            }
        }
    } else {
        let rest = reads.drop_first();
        lemma_read_sum_positive(rest);
        assert(done + reads[0] <= total);
        let d = (done + reads[0]) as u64;
        assert forall|i: int| 0 <= i < rest.len() implies 0 < #[trigger] rest[i] <= BUFFER_SIZE by {
            assert(rest[i] == reads[i + 1]);
        }
        lemma_entry_counts(path, d, rest, total);
        let first = read_events(path, done, reads[0], total);
        let chunk = StatsChange::Current(path, reads[0] as u32, d, total);
        assert(seq![chunk].drop_last() =~= Seq::<StatsChange>::empty());
        assert(seq![chunk].push(StatsChange::FileDone).drop_last() =~= seq![chunk]);
        assert(completed_count(first) == if d >= total {
            1int
        } else {
            0
        });
        assert(moved_bytes(first) == reads[0]);
        lemma_counts_concat(first, entry_events(path, d, rest, total));
    }
}

/// The `done` values of the chunks among the events, in order.
pub open spec fn progress_marks(evs: Seq<StatsChange>) -> Seq<u64>
    decreases evs.len(),
{
    if evs.len() == 0 {
        Seq::empty()
    } else {
        let p = progress_marks(evs.drop_last());
        match evs.last() {
            StatsChange::Current(_, _, done, _) => p.push(done),
            _ => p,
        }
    }
}

proof fn lemma_marks_concat(a: Seq<StatsChange>, b: Seq<StatsChange>)
    ensures
        progress_marks(a + b) == progress_marks(a) + progress_marks(b),
    decreases b.len(),
{
    if b.len() == 0 {
        assert(a + b =~= a);
        assert(progress_marks(a) + progress_marks(b) =~= progress_marks(a));
    } else {
        lemma_marks_concat(a, b.drop_last());
        assert((a + b).drop_last() =~= a + b.drop_last());
        match b.last() {
            StatsChange::Current(_, _, done, _) => {
                assert(progress_marks(a) + progress_marks(b.drop_last()).push(done) =~= (
                progress_marks(a) + progress_marks(b.drop_last())).push(done));
            },
            _ => {},
        }
    }
}

proof fn lemma_entry_marks(path: String, done: u64, reads: Seq<u64>, total: u64)
    requires
        forall|i: int| 0 <= i < reads.len() ==> 0 < #[trigger] reads[i] <= BUFFER_SIZE,
        done + read_sum(reads) == total,
    ensures
        progress_marks(entry_events(path, done, reads, total)).len() == reads.len(),
        forall|k: int|
            0 <= k < reads.len() ==> #[trigger] progress_marks(
                entry_events(path, done, reads, total),
            )[k] > done,
        forall|i: int, j: int|
            0 <= i < j < reads.len() ==> #[trigger] progress_marks(
                entry_events(path, done, reads, total),
            )[i] < #[trigger] progress_marks(entry_events(path, done, reads, total))[j],
        reads.len() > 0 ==> progress_marks(entry_events(path, done, reads, total)).last()
            == total,
        forall|k: int|
            0 <= k < reads.len() ==> #[trigger] progress_marks(
                entry_events(path, done, reads, total),
            )[k] == done + read_sum(reads.take(k + 1)),
    decreases reads.len(),
{
    reveal_with_fuel(progress_marks, 3);
    if reads.len() == 0 {
        assert(seq![StatsChange::FileDone].drop_last() =~= Seq::<StatsChange>::empty());
    } else {
        let rest = reads.drop_first();
        lemma_read_sum_positive(rest);
        let d = (done + reads[0]) as u64;
        assert forall|i: int| 0 <= i < rest.len() implies 0 < #[trigger] rest[i] <= BUFFER_SIZE by {
            assert(rest[i] == reads[i + 1]);
        }
        lemma_entry_marks(path, d, rest, total);
        let first = read_events(path, done, reads[0], total);
        let chunk = StatsChange::Current(path, reads[0] as u32, d, total);
        assert(seq![chunk].drop_last() =~= Seq::<StatsChange>::empty());
        assert(seq![chunk].push(StatsChange::FileDone).drop_last() =~= seq![chunk]);
        assert(progress_marks(first) =~= seq![d]);
        let tail = entry_events(path, d, rest, total);
        lemma_marks_concat(first, tail);
        let m = progress_marks(entry_events(path, done, reads, total));
        assert(m =~= seq![d] + progress_marks(tail));
        if rest.len() == 0 {
            assert(d == total);
        }
        assert forall|i: int, j: int| 0 <= i < j < reads.len() implies #[trigger] m[i] < #[trigger] m[j] by {
            if i > 0 {
                assert(m[i] == progress_marks(tail)[i - 1]);
            }
            assert(m[j] == progress_marks(tail)[j - 1]);
        }
        assert forall|k: int| 0 <= k < reads.len() implies #[trigger] m[k] == done + read_sum(
            reads.take(k + 1),
        ) by {
            let t = reads.take(k + 1);
            assert(t[0] == reads[0]);
            assert(t.drop_first() =~= rest.take(k));
            assert(read_sum(t) == t[0] + read_sum(t.drop_first()));
            if k == 0 {
                assert(rest.take(0) =~= Seq::<u64>::empty());
                assert(read_sum(rest.take(0)) == 0);
                assert(m[0] == d);
            } else {
                assert(m[k] == progress_marks(tail)[k - 1]);
                assert(progress_marks(tail)[k - 1] == d + read_sum(rest.take(k)));
            }
        }
    }
}

/// Within one entry whose reads, all non-empty and within the buffer, add
/// up to its size, the bytes done reported by successive chunks strictly
/// increase, each is the running sum of the reads so far, and the last one
/// equals the size.
pub proof fn lemma_progress_monotonic(path: String, reads: Seq<u64>, total: u64)
    requires
        forall|i: int| 0 <= i < reads.len() ==> 0 < #[trigger] reads[i] <= BUFFER_SIZE,
        read_sum(reads) == total,
    ensures
        progress_marks(entry_events(path, 0, reads, total)).len() == reads.len(),
        forall|i: int, j: int|
            0 <= i < j < reads.len() ==> #[trigger] progress_marks(
                entry_events(path, 0, reads, total),
            )[i] < #[trigger] progress_marks(entry_events(path, 0, reads, total))[j],
        reads.len() > 0 ==> progress_marks(entry_events(path, 0, reads, total)).last() == total,
        forall|k: int|
            0 <= k < reads.len() ==> #[trigger] progress_marks(
                entry_events(path, 0, reads, total),
            )[k] == read_sum(reads.take(k + 1)),
{
    lemma_entry_marks(path, 0, reads, total);
}

/// An entry whose reads, all non-empty and within the buffer, add up to its
/// size reports its completion exactly once, and its chunks add up to its
/// size.
pub proof fn lemma_single_completion(path: String, reads: Seq<u64>, total: u64)
    requires
        forall|i: int| 0 <= i < reads.len() ==> 0 < #[trigger] reads[i] <= BUFFER_SIZE,
        read_sum(reads) == total,
    ensures
        completed_count(entry_events(path, 0, reads, total)) == 1,
        moved_bytes(entry_events(path, 0, reads, total)) == total,
        discovered_count(entry_events(path, 0, reads, total)) == 0,
        discovered_bytes(entry_events(path, 0, reads, total)) == 0,
{
    lemma_entry_counts(path, 0, reads, total);
}

} // verus!
