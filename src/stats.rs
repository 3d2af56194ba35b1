//! The statistics loop's state: running totals fed by worker events, and the
//! display frame derived from them with redundant updates left out.
use crate::copy::{
    read_events, completed_count, discovered_bytes, discovered_count, entry_events, lemma_counts_concat,
    lemma_single_completion, moved_bytes, read_sum, StatsChange, WorkerEvent, BUFFER_SIZE,
};
use crate::track::TrackChange;
use vstd::prelude::*;

verus! {

/// Minimum time between two display refreshes.
pub const RENDER_INTERVAL_NANOS: u128 = 97_000_000;

/// Path of the entry being copied, compared by its text.
pub struct EntryPath {
    pub text: String,
}

impl PartialEq for EntryPath {
    fn eq(&self, o: &EntryPath) -> (r: bool) {
        self.text == o.text
    }
}

impl vstd::std_specs::cmp::PartialEqSpecImpl for EntryPath {
    open spec fn obeys_eq_spec() -> bool {
        true
    }

    open spec fn eq_spec(&self, o: &EntryPath) -> bool {
        self.text@ == o.text@
    }
}

impl EntryPath {
    pub closed spec fn view(&self) -> Seq<char> {
        self.text@
    }

    pub fn new(text: String) -> (r: Self)
        ensures
            r.view() == text@,
    {
        EntryPath { text }
    }

    pub fn text(&self) -> (r: &String)
        ensures
            r@ == self.view(),
    {
        &self.text
    }
}

/// The statistics as numbers.
pub struct StatsModel {
    pub files_done: int,
    pub bytes_done: int,
    pub files_total: int,
    pub bytes_total: int,
    pub current_path: Seq<char>,
    pub current_total: int,
    pub current_done: int,
}

/// The statistics before any event.
pub open spec fn initial_model() -> StatsModel {
    StatsModel {
        files_done: 0,
        bytes_done: 0,
        files_total: 0,
        bytes_total: 0,
        current_path: Seq::empty(),
        current_total: 0,
        current_done: 0,
    }
}

/// The statistics after one event: a completion counts a file done; a
/// discovery counts a file and its bytes to do; a chunk makes its entry the
/// current one, with its size and progress, and counts its bytes done.
pub open spec fn step(m: StatsModel, ev: StatsChange) -> StatsModel {
    match ev {
        StatsChange::FileDone => StatsModel { files_done: m.files_done + 1, ..m },
        StatsChange::BytesTotal(n) => StatsModel {
            bytes_total: m.bytes_total + n,
            files_total: m.files_total + 1,
            ..m
        },
        StatsChange::Current(p, chunk, done, todo) => StatsModel {
            current_path: p@,
            current_total: todo as int,
            current_done: done as int,
            bytes_done: m.bytes_done + chunk,
            ..m
        },
    }
}

/// The statistics after the events `evs`, in order.
pub open spec fn replay(m: StatsModel, evs: Seq<StatsChange>) -> StatsModel
    decreases evs.len(),
{
    if evs.len() == 0 {
        m
    } else {
        step(replay(m, evs.drop_last()), evs.last())
    }
}

/// The totals after a run of events are the starting totals plus what the
/// events report: one file and its bytes to do per discovery, one file done
/// per completion, and the bytes of each chunk done.
pub proof fn lemma_accounting(m: StatsModel, evs: Seq<StatsChange>)
    ensures
        replay(m, evs).files_total == m.files_total + discovered_count(evs),
        replay(m, evs).bytes_total == m.bytes_total + discovered_bytes(evs),
        replay(m, evs).files_done == m.files_done + completed_count(evs),
        replay(m, evs).bytes_done == m.bytes_done + moved_bytes(evs),
    decreases evs.len(),
{
    if evs.len() > 0 {
        lemma_accounting(m, evs.drop_last());
    }
}

proof fn lemma_replay_concat(m: StatsModel, a: Seq<StatsChange>, b: Seq<StatsChange>)
    ensures
        replay(m, a + b) == replay(replay(m, a), b),
    decreases b.len(),
{
    if b.len() == 0 {
        assert(a + b =~= a);
    } else {
        lemma_replay_concat(m, a, b.drop_last());
        assert((a + b).drop_last() =~= a + b.drop_last());
    }
}

proof fn lemma_entry_current(m: StatsModel, path: String, done: u64, reads: Seq<u64>, total: u64)
    requires
        reads.len() > 0,
        forall|i: int| 0 <= i < reads.len() ==> 0 < #[trigger] reads[i] <= BUFFER_SIZE,
        done + read_sum(reads) == total,
    ensures
        replay(m, entry_events(path, done, reads, total)).current_path == path@,
        replay(m, entry_events(path, done, reads, total)).current_done == total,
        replay(m, entry_events(path, done, reads, total)).current_total == total,
    decreases reads.len(),
{
    reveal_with_fuel(replay, 3);
    let rest = reads.drop_first();
    assert forall|i: int| 0 <= i < rest.len() implies 0 < #[trigger] rest[i] <= BUFFER_SIZE by {
        assert(rest[i] == reads[i + 1]);
    }
    crate::copy::lemma_read_sum_positive(rest);
    assert(read_sum(reads) == reads[0] + read_sum(rest));
    assert(reads[0] > 0);
    let d = (done + reads[0]) as u64;
    let first = read_events(path, done, reads[0], total);
    let tail = entry_events(path, d, rest, total);
    lemma_replay_concat(m, first, tail);
    if rest.len() == 0 {
        assert(read_sum(rest) == 0);
        assert(d == total);
        assert(tail =~= Seq::<StatsChange>::empty());
        let chunk = StatsChange::Current(path, reads[0] as u32, d, total);
        assert(first == seq![chunk].push(StatsChange::FileDone));
        assert(first.drop_last() =~= seq![chunk]);
        assert(seq![chunk].drop_last() =~= Seq::<StatsChange>::empty());
    } else {
        lemma_entry_current(replay(m, first), path, d, rest, total);
    }
}

/// Replaying the events of one entry copied whole, whose reads are all
/// non-empty, within the buffer and add up to its size: the entry ends as
/// the current one, with all its bytes done, and counts one file and its
/// size in bytes done.
pub proof fn lemma_entry_replay(m: StatsModel, path: String, reads: Seq<u64>, total: u64)
    requires
        reads.len() > 0,
        forall|i: int| 0 <= i < reads.len() ==> 0 < #[trigger] reads[i] <= BUFFER_SIZE,
        read_sum(reads) == total,
    ensures
        replay(m, entry_events(path, 0, reads, total)).current_path == path@,
        replay(m, entry_events(path, 0, reads, total)).current_done == total,
        replay(m, entry_events(path, 0, reads, total)).current_total == total,
        replay(m, entry_events(path, 0, reads, total)).files_done == m.files_done + 1,
        replay(m, entry_events(path, 0, reads, total)).bytes_done == m.bytes_done + total,
{
    lemma_entry_current(m, path, 0, reads, total);
    lemma_single_completion(path, reads, total);
    lemma_accounting(m, entry_events(path, 0, reads, total));
}

/// The events of a run that discovers files of the given sizes and copies
/// each in full: per file, its discovery, then its reads and end of file.
pub open spec fn copy_run_events(paths: Seq<String>, sizes: Seq<u64>, reads: Seq<Seq<u64>>) -> Seq<
    StatsChange,
>
    decreases sizes.len(),
{
    if sizes.len() == 0 || paths.len() == 0 || reads.len() == 0 {
        Seq::empty()
    } else {
        copy_run_events(paths.drop_last(), sizes.drop_last(), reads.drop_last()) + seq![
            StatsChange::BytesTotal(sizes.last()),
        ] + entry_events(paths.last(), 0, reads.last(), sizes.last())
    }
}

/// Sum of the sizes.
pub open spec fn size_sum(sizes: Seq<u64>) -> int
    decreases sizes.len(),
{
    if sizes.len() == 0 {
        0
    } else {
        size_sum(sizes.drop_last()) + sizes.last()
    }
}

/// After a run over `N` files, each discovered and then copied whole, the
/// statistics count `N` files to do and `N` done, and the sum of the sizes
/// both as bytes to do and as bytes done.
pub proof fn lemma_run_totals(paths: Seq<String>, sizes: Seq<u64>, reads: Seq<Seq<u64>>)
    requires
        paths.len() == sizes.len(),
        reads.len() == sizes.len(),
        forall|i: int, j: int|
            0 <= i < reads.len() && 0 <= j < reads[i].len() ==> 0 < #[trigger] reads[i][j]
                <= BUFFER_SIZE,
        forall|i: int| 0 <= i < sizes.len() ==> read_sum(#[trigger] reads[i]) == sizes[i],
    ensures
        replay(initial_model(), copy_run_events(paths, sizes, reads)).files_total == sizes.len(),
        replay(initial_model(), copy_run_events(paths, sizes, reads)).files_done == sizes.len(),
        replay(initial_model(), copy_run_events(paths, sizes, reads)).bytes_total == size_sum(sizes),
        replay(initial_model(), copy_run_events(paths, sizes, reads)).bytes_done == size_sum(sizes),
    decreases sizes.len(),
{
    let evs = copy_run_events(paths, sizes, reads);
    lemma_accounting(initial_model(), evs);
    lemma_event_totals(paths, sizes, reads);
}

proof fn lemma_event_totals(paths: Seq<String>, sizes: Seq<u64>, reads: Seq<Seq<u64>>)
    requires
        paths.len() == sizes.len(),
        reads.len() == sizes.len(),
        forall|i: int, j: int|
            0 <= i < reads.len() && 0 <= j < reads[i].len() ==> 0 < #[trigger] reads[i][j]
                <= BUFFER_SIZE,
        forall|i: int| 0 <= i < sizes.len() ==> read_sum(#[trigger] reads[i]) == sizes[i],
    ensures
        discovered_count(copy_run_events(paths, sizes, reads)) == sizes.len(),
        completed_count(copy_run_events(paths, sizes, reads)) == sizes.len(),
        discovered_bytes(copy_run_events(paths, sizes, reads)) == size_sum(sizes),
        moved_bytes(copy_run_events(paths, sizes, reads)) == size_sum(sizes),
    decreases sizes.len(),
{
    if sizes.len() > 0 {
        let k = sizes.len() - 1;
        let (p0, s0, r0) = (paths.drop_last(), sizes.drop_last(), reads.drop_last());
        assert forall|i: int, j: int| 0 <= i < r0.len() && 0 <= j < r0[i].len() implies 0
            < #[trigger] r0[i][j] <= BUFFER_SIZE by {
            assert(r0[i] == reads[i]);
        }
        assert forall|i: int| 0 <= i < s0.len() implies read_sum(#[trigger] r0[i]) == s0[i] by {
            assert(r0[i] == reads[i]);
            assert(read_sum(reads[i]) == sizes[i]);
        }
        lemma_event_totals(p0, s0, r0);
        let last = reads[k];
        assert(read_sum(reads[k]) == sizes[k]);
        assert forall|j: int| 0 <= j < last.len() implies 0 < #[trigger] last[j] <= BUFFER_SIZE by {
            assert(0 < reads[k][j] <= BUFFER_SIZE);
        }
        lemma_single_completion(paths.last(), last, sizes.last());
        let head = copy_run_events(p0, s0, r0);
        let disc = seq![StatsChange::BytesTotal(sizes.last())];
        let tail = entry_events(paths.last(), 0, last, sizes.last());
        assert(disc.drop_last() =~= Seq::<StatsChange>::empty());
        reveal_with_fuel(discovered_count, 2);
        reveal_with_fuel(completed_count, 2);
        assert(discovered_count(disc) == 1);
        assert(completed_count(disc) == 0);
        reveal_with_fuel(discovered_bytes, 2);
        reveal_with_fuel(moved_bytes, 2);
        assert(discovered_bytes(disc) == sizes.last());
        assert(moved_bytes(disc) == 0);
        assert(size_sum(sizes) == size_sum(s0) + sizes.last());
        assert(copy_run_events(paths, sizes, reads) == head + disc + tail);
        lemma_counts_concat(head, disc);
        lemma_counts_concat(head + disc, tail);
    }
}

/// Every count of the statistics fits in a `u64`.
pub open spec fn in_range(m: StatsModel) -> bool {
    &&& 0 <= m.files_done <= u64::MAX
    &&& 0 <= m.bytes_done <= u64::MAX
    &&& 0 <= m.files_total <= u64::MAX
    &&& 0 <= m.bytes_total <= u64::MAX
    &&& 0 <= m.current_total <= u64::MAX
    &&& 0 <= m.current_done <= u64::MAX
}

/// Whether the event's counts still fit in 64 bits.
pub open spec fn fits(m: StatsModel, ev: StatsChange) -> bool {
    let n = step(m, ev);
    &&& n.files_done <= u64::MAX
    &&& n.bytes_done <= u64::MAX
    &&& n.files_total <= u64::MAX
    &&& n.bytes_total <= u64::MAX
}

/// What a display refresh pushes. A length is given only where it moved
/// since the previous refresh; the label only when the entry changed.
pub struct Frame {
    /// Label of the entry being copied.
    pub name: Option<String>,
    pub current_len: Option<u64>,
    pub current_pos: u64,
    pub files_len: Option<u64>,
    pub files_pos: u64,
    pub bytes_len: Option<u64>,
    pub bytes_pos: u64,
}

/// Whether a refresh is due, `since_last_nanos` after the previous one.
pub fn render_due(since_last_nanos: u128) -> (r: bool)
    ensures
        r == (since_last_nanos >= RENDER_INTERVAL_NANOS),
{
    since_last_nanos >= RENDER_INTERVAL_NANOS
}

/// Running totals of a copy, owned by the statistics loop.
pub struct OperationStats {
    files_done: u64,
    bytes_done: u64,
    files_total: TrackChange<u64>,
    bytes_total: TrackChange<u64>,
    current_total: u64,
    current_done: u64,
    current_path: TrackChange<EntryPath>,
}

impl OperationStats {
    pub closed spec fn model(&self) -> StatsModel {
        StatsModel {
            files_done: self.files_done as int,
            bytes_done: self.bytes_done as int,
            files_total: self.files_total.value() as int,
            bytes_total: self.bytes_total.value() as int,
            current_path: self.current_path.value().view(),
            current_total: self.current_total as int,
            current_done: self.current_done as int,
        }
    }

    /// The current entry moved since the previous refresh.
    pub closed spec fn path_changed(&self) -> bool {
        self.current_path.is_changed()
    }

    /// The number of files to do moved since the previous refresh.
    pub closed spec fn files_total_changed(&self) -> bool {
        self.files_total.is_changed()
    }

    /// The number of bytes to do moved since the previous refresh.
    pub closed spec fn bytes_total_changed(&self) -> bool {
        self.bytes_total.is_changed()
    }

    pub fn new() -> (r: Self)
        ensures
            r.model() == initial_model(),
            in_range(r.model()),
            !r.path_changed(),
            !r.files_total_changed(),
            !r.bytes_total_changed(),
    {
        OperationStats {
            files_done: 0,
            bytes_done: 0,
            files_total: TrackChange::new(0),
            bytes_total: TrackChange::new(0),
            current_total: 0,
            current_done: 0,
            current_path: TrackChange::new(EntryPath::new(String::new())),
        }
    }

    /// Whether [`OperationStats::apply`] can take `ev` without a count
    /// overflowing.
    pub fn can_apply(&self, ev: &WorkerEvent) -> (r: bool)
        ensures
            r == fits(self.model(), ev->Stat_0),
    {
        match ev {
            WorkerEvent::Stat(StatsChange::FileDone) => self.files_done < u64::MAX,
            WorkerEvent::Stat(StatsChange::BytesTotal(n)) => {
                *self.files_total.get() < u64::MAX && *n <= u64::MAX - *self.bytes_total.get()
            },
            WorkerEvent::Stat(StatsChange::Current(_, chunk, _, _)) => {
                (*chunk as u64) <= u64::MAX - self.bytes_done
            },
        }
    }

    /// Takes one worker event into account.
    pub fn apply(&mut self, ev: &WorkerEvent)
        requires
            fits(old(self).model(), ev->Stat_0),
        ensures
            final(self).model() == step(old(self).model(), ev->Stat_0),
            in_range(final(self).model()),
            final(self).path_changed() == (old(self).path_changed()
                || final(self).model().current_path != old(self).model().current_path),
            final(self).files_total_changed() == (old(self).files_total_changed()
                || final(self).model().files_total != old(self).model().files_total),
            final(self).bytes_total_changed() == (old(self).bytes_total_changed()
                || final(self).model().bytes_total != old(self).model().bytes_total),
    {
        match ev {
            WorkerEvent::Stat(StatsChange::FileDone) => {
                self.files_done = self.files_done + 1;
            },
            WorkerEvent::Stat(StatsChange::BytesTotal(n)) => {
                let bt = *self.bytes_total.get() + *n;
                self.bytes_total.set(bt);
                let ft = *self.files_total.get() + 1;
                self.files_total.set(ft);
            },
            WorkerEvent::Stat(StatsChange::Current(p, chunk, done, todo)) => {
                self.current_path.set(EntryPath::new(p.clone()));
                self.current_total = *todo;
                self.current_done = *done;
                self.bytes_done = self.bytes_done + *chunk as u64;
            },
        }
    }

    /// The frame of a display refresh; reading the change flags clears them.
    pub fn frame(&mut self) -> (r: Frame)
        ensures
            final(self).model() == old(self).model(),
            in_range(final(self).model()),
            !final(self).path_changed(),
            !final(self).files_total_changed(),
            !final(self).bytes_total_changed(),
            r.name is Some == old(self).path_changed(),
            r.name matches Some(n) ==> n@ == old(self).model().current_path,
            r.current_len == (if old(self).path_changed() {
                Some(old(self).model().current_total as u64)
            } else {
                None
            }),
            r.current_pos == old(self).model().current_done,
            r.files_len == (if old(self).files_total_changed() {
                Some(old(self).model().files_total as u64)
            } else {
                None
            }),
            r.files_pos == old(self).model().files_done,
            r.bytes_len == (if old(self).bytes_total_changed() {
                Some(old(self).model().bytes_total as u64)
            } else {
                None
            }),
            r.bytes_pos == old(self).model().bytes_done,
    {
        let (name, current_len) = if self.current_path.changed() {
            (Some(self.current_path.get().text().clone()), Some(self.current_total))
        } else {
            (None, None)
        };
        let files_len = if self.files_total.changed() {
            Some(*self.files_total.get())
        } else {
            None
        };
        let bytes_len = if self.bytes_total.changed() {
            Some(*self.bytes_total.get())
        } else {
            None
        };
        Frame {
            name,
            current_len,
            current_pos: self.current_done,
            files_len,
            files_pos: self.files_done,
            bytes_len,
            bytes_pos: self.bytes_done,
        }
    }

    pub fn files_done(&self) -> (r: u64)
        ensures
            r == self.model().files_done,
    {
        self.files_done
    }

    pub fn bytes_done(&self) -> (r: u64)
        ensures
            r == self.model().bytes_done,
    {
        self.bytes_done
    }

    pub fn files_total(&self) -> (r: u64)
        ensures
            r == self.model().files_total,
    {
        *self.files_total.get()
    }

    pub fn bytes_total(&self) -> (r: u64)
        ensures
            r == self.model().bytes_total,
    {
        *self.bytes_total.get()
    }

    pub fn current_done(&self) -> (r: u64)
        ensures
            r == self.model().current_done,
    {
        self.current_done
    }

    pub fn current_total(&self) -> (r: u64)
        ensures
            r == self.model().current_total,
    {
        self.current_total
    }

    pub fn current_path(&self) -> (r: &String)
        ensures
            r@ == self.model().current_path,
    {
        self.current_path.get().text()
    }
}

} // verus!
