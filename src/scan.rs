use vstd::prelude::*;

use crate::fault::{
    decode_fault,
    decode_fault_text,
    open_fault,
    open_fault_text,
    panic_fault,
    panic_fault_text,
    read_fault,
    read_fault_text,
    walk_fault,
    walk_fault_text,
    FaultLog,
};
use crate::filter::{accepted, ExtensionSet};
use crate::group::{group_sets, members, one_hash_per_path, path_seq, shared, Aggregator, HashGroup};
use crate::image::Image;

verus! {

/// The perceptual hash to compute for each picture.
#[derive(Clone, Copy, Debug, PartialEq, Eq, Structural)]
pub enum HashAlgorithm {
    Mean,
    Median,
    Gradient,
    VertGradient,
    DoubleGradient,
    Blockhash,
}

/// One item of the directory walk.
pub enum WalkEntry {
    /// The walk could not read an entry; the detail says why.
    Failed(String),
    Directory,
    /// Anything that is not a directory, by its path and its depth below the
    /// root (a file directly in the root has depth 1).
    File { path: String, depth: usize },
}

/// What to do with a walk entry.
pub enum EntryStep {
    /// Cancellation was seen: handle no more entries.
    Stop,
    Skip,
    /// Decode the file at this path and hash it.
    Decode(String),
}

/// How decoding and hashing a candidate file went.
pub enum Decoded {
    /// The bytes of the picture's perceptual hash.
    Hashed(Vec<u8>),
    /// The decoder returned an error; the detail says which.
    Failed(String),
    /// The decoder or the hasher panicked.
    Panicked,
}

/// The result of one candidate file.
pub enum FileOutcome {
    Hashed { path: String, hash: Vec<u8> },
    Fault { path: String, msg: String },
}

/// How re-reading a member of a duplicate group went.
pub enum LoadOutcome {
    /// The file's bytes, and the picture's width and height where they
    /// decode.
    Loaded { bytes: Vec<u8>, dimm: Option<(u32, u32)> },
    /// The file could not be opened; the detail says why.
    OpenFailed(String),
    /// The file opened but could not be read.
    ReadFailed(String),
}

/// Turns what became of one candidate file into the outcome the scan
/// records: its hash, or a fault record naming it.
pub fn file_outcome(path: String, decoded: Decoded) -> (r: FileOutcome)
    ensures
        decoded matches Decoded::Hashed(h) ==> (r matches FileOutcome::Hashed { path: p, hash: q }
            && p == path && q@ == h@),
        decoded matches Decoded::Failed(d) ==> (r matches FileOutcome::Fault { path: p, msg: m }
            && p == path && m@ == decode_fault(path@, d@)),
        decoded is Panicked ==> (r matches FileOutcome::Fault { path: p, msg: m } && p == path
            && m@ == panic_fault(path@)),
{
    match decoded {
        Decoded::Hashed(hash) => FileOutcome::Hashed { path, hash },
        Decoded::Failed(d) => {
            let msg = decode_fault_text(path.as_str(), d.as_str());
            FileOutcome::Fault { path, msg }
        },
        Decoded::Panicked => {
            let msg = panic_fault_text(path.as_str());
            FileOutcome::Fault { path, msg }
        },
    }
}

/// What a finished scan hands back.
pub struct SearchResults {
    pub duplicates: Vec<Vec<Image>>,
    pub errors: Vec<String>,
}

impl SearchResults {
    pub fn empty() -> (r: SearchResults)
        ensures
            r.duplicates@.len() == 0,
            r.errors@.len() == 0,
    {
        SearchResults { duplicates: Vec::new(), errors: Vec::new() }
    }

    /// The results as the caller collects them, with `cancelled` the flag as
    /// read at collection: a cancelled scan returns nothing, whatever the
    /// worker produced before it saw the flag.
    pub fn collect(self, cancelled: bool) -> (r: SearchResults)
        ensures
            cancelled ==> r.duplicates@.len() == 0 && r.errors@.len() == 0,
            !cancelled ==> r == self,
    {
        if cancelled {
            SearchResults::empty()
        } else {
            self
        }
    }
}

/// A file at `depth` below the root lies within the depth limit.
pub open spec fn within_depth(depth: usize, limit: Option<usize>) -> bool {
    match limit {
        Some(d) => depth <= d,
        None => true,
    }
}

/// The discover phase: which entries to hash, which paths hashed alike, and
/// which faults came up.
pub struct Scan {
    exts: ExtensionSet,
    max_depth: Option<usize>,
    aggregator: Aggregator,
    faults: FaultLog,
    cancelled: bool,
}

impl Scan {
    pub closed spec fn wf(&self) -> bool {
        &&& self.aggregator.wf()
        &&& self.faults.wf()
        &&& forall|pr: (Seq<u8>, Seq<char>)|
            #[trigger] self.aggregator@.contains(pr) ==> accepted(self.exts@, pr.1)
        &&& one_hash_per_path(self.aggregator@)
    }

    /// The (hash, path) pairs recorded so far.
    pub closed spec fn relation(&self) -> Set<(Seq<u8>, Seq<char>)> {
        self.aggregator@
    }

    pub closed spec fn faults(&self) -> Set<Seq<char>> {
        self.faults@
    }

    pub closed spec fn extensions(&self) -> Set<Seq<char>> {
        self.exts@
    }

    pub closed spec fn depth_limit(&self) -> Option<usize> {
        self.max_depth
    }

    /// Whether cancellation has been seen.
    pub closed spec fn is_cancelled(&self) -> bool {
        self.cancelled
    }

    pub fn new(exts: ExtensionSet, max_depth: Option<usize>) -> (r: Scan)
        ensures
            r.wf(),
            r.extensions() == exts@,
            r.depth_limit() == max_depth,
            r.relation() == Set::<(Seq<u8>, Seq<char>)>::empty(),
            r.faults() == Set::<Seq<char>>::empty(),
            !r.is_cancelled(),
    {
        Scan { exts, max_depth, aggregator: Aggregator::new(), faults: FaultLog::new(), cancelled: false }
    }

    /// Decides on one walk entry, with `cancelled` the flag as just read. A
    /// file is decoded only when its extension is in the set and it lies
    /// within the depth limit.
    pub fn on_entry(&mut self, cancelled: bool, entry: WalkEntry) -> (r: EntryStep)
        requires
            old(self).wf(),
        ensures
            final(self).wf(),
            final(self).extensions() == old(self).extensions(),
            final(self).depth_limit() == old(self).depth_limit(),
            final(self).relation() == old(self).relation(),
            final(self).is_cancelled() == (old(self).is_cancelled() || cancelled),
            final(self).is_cancelled() ==> r is Stop && final(self).faults() == old(self).faults(),
            !final(self).is_cancelled() ==> match entry {
                WalkEntry::Failed(d) => r is Skip && final(self).faults() == old(self).faults().insert(
                    walk_fault(d@),
                ),
                WalkEntry::Directory => r is Skip && final(self).faults() == old(self).faults(),
                WalkEntry::File { path, depth } => final(self).faults() == old(self).faults() && if accepted(
                    old(self).extensions(),
                    path@,
                ) && within_depth(depth, old(self).depth_limit()) {
                    r matches EntryStep::Decode(q) && q == path
                } else {
                    r is Skip
                },
            },
    {
        if cancelled {
            self.cancelled = true;
        }
        if self.cancelled {
            return EntryStep::Stop;
        }
        match entry {
            WalkEntry::Failed(d) => {
                let msg = walk_fault_text(d.as_str());
                self.faults.record(msg);
                EntryStep::Skip
            },
            WalkEntry::Directory => EntryStep::Skip,
            WalkEntry::File { path, depth } => {
                let deep_enough = match self.max_depth {
                    Some(d) => depth <= d,
                    None => true,
                };
                if deep_enough && self.exts.accepts(path.as_str()) {
                    EntryStep::Decode(path)
                } else {
                    EntryStep::Skip
                }
            },
        }
    }

    /// Records the outcome of one candidate file. An outcome for a path
    /// outside the extension set is not the scan's and is dropped, and so is
    /// a second hash for a path already recorded.
    pub fn on_file(&mut self, outcome: FileOutcome)
        requires
            old(self).wf(),
        ensures
            final(self).wf(),
            final(self).extensions() == old(self).extensions(),
            final(self).depth_limit() == old(self).depth_limit(),
            final(self).is_cancelled() == old(self).is_cancelled(),
            match outcome {
                FileOutcome::Hashed { path, hash } => final(self).faults() == old(self).faults()
                    && final(self).relation() == if accepted(old(self).extensions(), path@)
                    && !exists|h: Seq<u8>| #[trigger] old(self).relation().contains((h, path@)) {
                    old(self).relation().insert((hash@, path@))
                } else {
                    old(self).relation()
                },
                FileOutcome::Fault { path, msg } => final(self).relation() == old(self).relation()
                    && final(self).faults() == if accepted(old(self).extensions(), path@) {
                    old(self).faults().insert(msg@)
                } else {
                    old(self).faults()
                },
            },
    {
        match outcome {
            FileOutcome::Hashed { path, hash } => {
                if self.exts.accepts(path.as_str()) {
                    self.aggregator.insert(hash, path);
                }
            },
            FileOutcome::Fault { path, msg } => {
                if self.exts.accepts(path.as_str()) {
                    self.faults.record(msg);
                }
            },
        }
    }
}

/// All of `imgs` were recorded under hash `h`.
pub open spec fn under_hash(rel: Set<(Seq<u8>, Seq<char>)>, imgs: Seq<Image>, h: Seq<u8>) -> bool {
    forall|j: int| 0 <= j < imgs.len() ==> rel.contains((h, #[trigger] imgs[j].path@))
}

/// The paths of a sequence of images.
pub open spec fn image_paths(imgs: Seq<Image>) -> Seq<Seq<char>> {
    imgs.map_values(|i: Image| i.path@)
}

/// A duplicate group as a scan returns it: at least two members, no path
/// twice, all recorded under one hash, all with an extension of the set.
pub open spec fn valid_group(
    rel: Set<(Seq<u8>, Seq<char>)>,
    exts: Set<Seq<char>>,
    imgs: Seq<Image>,
) -> bool {
    &&& imgs.len() >= 2
    &&& image_paths(imgs).no_duplicates()
    &&& exists|h: Seq<u8>| #[trigger] under_hash(rel, imgs, h)
    &&& forall|j: int| 0 <= j < imgs.len() ==> accepted(exts, #[trigger] imgs[j].path@)
}

/// No path belongs to two groups.
pub open spec fn disjoint_groups(d: Seq<Vec<Image>>) -> bool {
    forall|i: int, j: int, a: int, b: int|
        0 <= i < j < d.len() && 0 <= a < d[i]@.len() && 0 <= b < d[j]@.len()
            ==> (#[trigger] d[i]@[a]).path@ != (#[trigger] d[j]@[b]).path@
}

/// Path `p` was recorded under the hash of group `k`.
pub open spec fn in_group(rel: Set<(Seq<u8>, Seq<char>)>, groups: Seq<HashGroup>, k: int, p: Seq<char>) -> bool {
    rel.contains((groups[k].hash@, p))
}

/// The duplicate groups of a result, each as the set of its paths.
pub open spec fn result_sets(groups: Seq<Vec<Image>>) -> Set<Set<Seq<char>>> {
    Set::new(
        |s: Set<Seq<char>>|
            exists|i: int| 0 <= i < groups.len() && s == image_paths((#[trigger] groups[i])@).to_set(),
    )
}

/// The groups to read cover the relation: each hash that two paths share,
/// once, with all of its paths, none twice.
pub open spec fn covers(groups: Seq<HashGroup>, rel: Set<(Seq<u8>, Seq<char>)>) -> bool {
    &&& forall|i: int|
        0 <= i < groups.len() ==> (#[trigger] groups[i]).paths@.len() >= 2
            && path_seq(groups[i].paths@).no_duplicates()
            && path_seq(groups[i].paths@).to_set() == members(rel, groups[i].hash@)
    &&& forall|i: int, j: int| 0 <= i < j < groups.len() ==> groups[i].hash@ != groups[j].hash@
    &&& forall|h: Seq<u8>|
        shared(rel, h) ==> exists|i: int| 0 <= i < groups.len() && (#[trigger] groups[i].hash@) == h
}

/// `new` is `old`, with the image read from `path` added at the end when the
/// file loaded.
pub open spec fn extended(new: Seq<Image>, old: Seq<Image>, outcome: LoadOutcome, path: Seq<char>) -> bool {
    match outcome {
        LoadOutcome::Loaded { bytes, dimm } => {
            &&& new.len() == old.len() + 1
            &&& new.drop_last() == old
            &&& new.last().path@ == path
            &&& new.last().buffer@ == bytes@
            &&& new.last().file_size == bytes@.len()
            &&& new.last().dimm == dimm
        },
        _ => new == old,
    }
}

/// The materialize phase: re-reads the members of each duplicate group, one
/// file at a time, so that cancellation is seen between any two reads.
pub struct Materializer {
    groups: Vec<HashGroup>,
    next: usize,
    member: usize,
    current: Vec<Image>,
    done: Vec<Vec<Image>>,
    faults: FaultLog,
    cancelled: bool,
    rel: Ghost<Set<(Seq<u8>, Seq<char>)>>,
    exts: Ghost<Set<Seq<char>>>,
    clean: Ghost<bool>,
}

impl Materializer {
    pub closed spec fn wf(&self) -> bool {
        &&& self.next <= self.groups@.len()
        &&& self.next < self.groups@.len() ==> self.member < self.groups@[self.next as int].paths@.len()
        &&& covers(self.groups@, self.rel@)
        &&& forall|pr: (Seq<u8>, Seq<char>)| #[trigger] self.rel@.contains(pr) ==> accepted(self.exts@, pr.1)
        &&& self.faults.wf()
        &&& forall|i: int| 0 <= i < self.done@.len() ==> valid_group(self.rel@, self.exts@, #[trigger] self.done@[i]@)
        &&& one_hash_per_path(self.rel@)
        &&& disjoint_groups(self.done@)
        &&& forall|i: int, a: int| 0 <= i < self.done@.len() && 0 <= a < self.done@[i]@.len()
            ==> exists|k: int| 0 <= k < self.next && #[trigger] in_group(self.rel@, self.groups@, k, (#[trigger] self.done@[i]@[a]).path@)
        &&& self.next == self.groups@.len() ==> self.current@.len() == 0
        &&& self.next < self.groups@.len() ==> {
            &&& image_paths(self.current@).no_duplicates()
            &&& image_paths(self.current@).to_set().subset_of(
                path_seq(self.groups@[self.next as int].paths@).subrange(0, self.member as int).to_set(),
            )
        }
        &&& self.clean@ ==> {
            &&& self.done@.len() == self.next
            &&& forall|i: int| 0 <= i < self.next ==> image_paths((#[trigger] self.done@[i])@)
                == path_seq(self.groups@[i].paths@)
            &&& self.next < self.groups@.len() ==> image_paths(self.current@)
                == path_seq(self.groups@[self.next as int].paths@).subrange(0, self.member as int)
        }
    }

    /// The groups to read, in order.
    pub closed spec fn groups(&self) -> Seq<HashGroup> {
        self.groups@
    }

    /// Index of the group being read.
    pub closed spec fn next_group(&self) -> nat {
        self.next as nat
    }

    /// Index, within its group, of the member to read next.
    pub closed spec fn next_member(&self) -> nat {
        self.member as nat
    }

    /// The members of the group being read that loaded so far.
    pub closed spec fn current(&self) -> Seq<Image> {
        self.current@
    }

    /// The groups read through that kept at least two members.
    pub closed spec fn done(&self) -> Seq<Seq<Image>> {
        self.done@.map_values(|g: Vec<Image>| g@)
    }

    /// Every file read so far was read whole.
    pub closed spec fn all_loaded(&self) -> bool {
        self.clean@
    }

    /// The relation of the discover phase that the groups come from.
    pub closed spec fn relation(&self) -> Set<(Seq<u8>, Seq<char>)> {
        self.rel@
    }

    pub closed spec fn extensions(&self) -> Set<Seq<char>> {
        self.exts@
    }

    pub closed spec fn faults(&self) -> Set<Seq<char>> {
        self.faults@
    }

    pub closed spec fn is_cancelled(&self) -> bool {
        self.cancelled
    }

    /// Every group has been read through.
    pub open spec fn is_done(&self) -> bool {
        self.next_group() == self.groups().len()
    }

    /// The path to be read next, while groups remain.
    pub open spec fn pending(&self) -> Seq<char> {
        self.groups()[self.next_group() as int].paths@[self.next_member() as int]@
    }

    /// The member to read next is the last of its group.
    pub open spec fn group_ends(&self) -> bool {
        self.next_member() + 1 == self.groups()[self.next_group() as int].paths@.len()
    }

    /// Whether the whole pass is over, by cancellation or because every group
    /// was read.
    pub fn finished(&self) -> (r: bool)
        ensures
            r == (self.is_cancelled() || self.is_done()),
    {
        self.cancelled || self.next == self.groups.len()
    }

    /// Whether cancellation has been seen: the caller then returns to the
    /// setup step rather than show results.
    pub fn was_cancelled(&self) -> (r: bool)
        ensures
            r == self.is_cancelled(),
    {
        self.cancelled
    }

    /// The path to read next; `None` once cancellation is seen or every group
    /// was read. Only members of a hash that two paths share are read.
    /// `cancelled` is the flag as just read.
    pub fn next_path(&mut self, cancelled: bool) -> (r: Option<String>)
        requires
            old(self).wf(),
        ensures
            final(self).wf(),
            final(self).relation() == old(self).relation(),
            final(self).extensions() == old(self).extensions(),
            final(self).faults() == old(self).faults(),
            final(self).groups() == old(self).groups(),
            final(self).next_group() == old(self).next_group(),
            final(self).next_member() == old(self).next_member(),
            final(self).current() == old(self).current(),
            final(self).done() == old(self).done(),
            final(self).all_loaded() == old(self).all_loaded(),
            final(self).is_cancelled() == (old(self).is_cancelled() || cancelled),
            r is None <==> (final(self).is_cancelled() || final(self).is_done()),
            r matches Some(p) ==> {
                &&& p@ == final(self).pending()
                &&& accepted(final(self).extensions(), p@)
                &&& members(final(self).relation(), final(self).groups()[final(self).next_group() as int].hash@).contains(p@)
                &&& shared(final(self).relation(), final(self).groups()[final(self).next_group() as int].hash@)
            },
    {
        if cancelled {
            self.cancelled = true;
        }
        if self.cancelled || self.next == self.groups.len() {
            return None;
        }
        let p = self.groups[self.next].paths[self.member].clone();
        proof {
            let g = self.groups@[self.next as int];
            let ps = path_seq(g.paths@);
            assert(ps.to_set().contains(ps[self.member as int]));
            assert(ps.to_set().contains(ps[0]));
            assert(ps.to_set().contains(ps[1]));
            assert(ps[0] != ps[1]);
            assert(self.rel@.contains((g.hash@, ps[0])));
            assert(self.rel@.contains((g.hash@, ps[1])));
            assert(self.rel@.contains((g.hash@, p@)));
        }
        Some(p)
    }

    /// Takes the outcome of reading the path that `next_path` gave, then
    /// moves on to the next member. A loaded file joins the group being
    /// read; once its last member is read, the group is kept if at least two
    /// of its members loaded. `cancelled` is the flag as just read.
    pub fn on_load(&mut self, cancelled: bool, outcome: LoadOutcome)
        requires
            old(self).wf(),
        ensures
            final(self).wf(),
            final(self).relation() == old(self).relation(),
            final(self).extensions() == old(self).extensions(),
            final(self).groups() == old(self).groups(),
            final(self).is_cancelled() == (old(self).is_cancelled() || cancelled),
            final(self).all_loaded() == (old(self).all_loaded() && (old(self).is_done()
                || outcome is Loaded)),
            old(self).is_done() ==> {
                &&& final(self).faults() == old(self).faults()
                &&& final(self).next_group() == old(self).next_group()
                &&& final(self).next_member() == old(self).next_member()
                &&& final(self).current() == old(self).current()
                &&& final(self).done() == old(self).done()
            },
            !old(self).is_done() ==> match outcome {
                LoadOutcome::Loaded { .. } => final(self).faults() == old(self).faults(),
                LoadOutcome::OpenFailed(d) => final(self).faults() == old(self).faults().insert(
                    open_fault(old(self).pending(), d@),
                ),
                LoadOutcome::ReadFailed(d) => final(self).faults() == old(self).faults().insert(
                    read_fault(old(self).pending(), d@),
                ),
            },
            !old(self).is_done() && !old(self).group_ends() ==> {
                &&& final(self).next_group() == old(self).next_group()
                &&& final(self).next_member() == old(self).next_member() + 1
                &&& final(self).done() == old(self).done()
                &&& extended(final(self).current(), old(self).current(), outcome, old(self).pending())
            },
            !old(self).is_done() && old(self).group_ends() ==> {
                &&& final(self).next_group() == old(self).next_group() + 1
                &&& final(self).next_member() == 0
                &&& final(self).current().len() == 0
                &&& if old(self).current().len() + (if outcome is Loaded { 1int } else { 0int }) >= 2 {
                    &&& final(self).done().len() == old(self).done().len() + 1
                    &&& final(self).done().drop_last() == old(self).done()
                    &&& extended(final(self).done().last(), old(self).current(), outcome, old(self).pending())
                } else {
                    final(self).done() == old(self).done()
                }
            },
    {
        if cancelled {
            self.cancelled = true;
        }
        if self.next >= self.groups.len() {
            return;
        }
        let ghost h = self.groups@[self.next as int].hash@;
        let ghost ps = path_seq(self.groups@[self.next as int].paths@);
        let ghost before = self.current@;
        let ghost done_before = self.done@;
        let ghost old_done_view = self.done@.map_values(|g: Vec<Image>| g@);
        let path = self.groups[self.next].paths[self.member].clone();
        let n = self.groups[self.next].paths.len();
        proof {
            assert(ps[self.member as int] == path@);
            assert(!ps.subrange(0, self.member as int).to_set().contains(path@)) by {
                if ps.subrange(0, self.member as int).to_set().contains(path@) {
                    let k = choose|k: int| 0 <= k < self.member && #[trigger] ps.subrange(0, self.member as int)[k] == path@;
                    assert(ps[k] == ps[self.member as int]);
                }
            }
            assert(ps.subrange(0, self.member + 1).to_set() =~= ps.subrange(0, self.member as int).to_set().insert(path@)) by {
                assert forall|x: Seq<char>| ps.subrange(0, self.member + 1).to_set().contains(x) implies ps.subrange(0, self.member as int).to_set().insert(path@).contains(x) by {
                    let k = choose|k: int| 0 <= k < self.member + 1 && #[trigger] ps.subrange(0, self.member + 1)[k] == x;
                    if k < self.member {
                        assert(ps.subrange(0, self.member as int)[k] == x);
                    }
                }
                assert forall|x: Seq<char>| ps.subrange(0, self.member as int).to_set().insert(path@).contains(x) implies ps.subrange(0, self.member + 1).to_set().contains(x) by {
                    if x == path@ {
                        assert(ps.subrange(0, self.member + 1)[self.member as int] == x);
                    } else {
                        let k = choose|k: int| 0 <= k < self.member && #[trigger] ps.subrange(0, self.member as int)[k] == x;
                        assert(ps.subrange(0, self.member + 1)[k] == x);
                    }
                }
            }
        }
        match outcome {
            LoadOutcome::Loaded { bytes, dimm } => {
                let img = Image::new(path, bytes, dimm);
                self.current.push(img);
                proof {
                    assert(image_paths(self.current@) =~= image_paths(before).push(ps[self.member as int]));
                    assert(self.current@.drop_last() =~= before);
                    assert(!image_paths(before).contains(ps[self.member as int])) by {
                        if image_paths(before).contains(ps[self.member as int]) {
                            let j = choose|j: int| 0 <= j < before.len() && #[trigger] image_paths(before)[j] == ps[self.member as int];
                            assert(image_paths(before).to_set().contains(image_paths(before)[j]));
                        }
                    }
                    assert(image_paths(self.current@).to_set() =~= image_paths(before).to_set().insert(ps[self.member as int])) by {
                        assert forall|x: Seq<char>| image_paths(self.current@).to_set().contains(x) implies image_paths(before).to_set().insert(ps[self.member as int]).contains(x) by {
                            let j = choose|j: int| 0 <= j < self.current@.len() && #[trigger] image_paths(self.current@)[j] == x;
                            if j < before.len() {
                                assert(image_paths(before)[j] == x);
                            }
                        }
                        assert forall|x: Seq<char>| image_paths(before).to_set().insert(ps[self.member as int]).contains(x) implies image_paths(self.current@).to_set().contains(x) by {
                            if x == ps[self.member as int] {
                                assert(image_paths(self.current@)[before.len() as int] == x);
                            } else {
                                let j = choose|j: int| 0 <= j < before.len() && #[trigger] image_paths(before)[j] == x;
                                assert(image_paths(self.current@)[j] == x);
                            }
                        }
                    }
                    if self.clean@ {
                        assert(ps.subrange(0, self.member + 1) =~= ps.subrange(0, self.member as int).push(ps[self.member as int]));
                    }
                }
            },
            LoadOutcome::OpenFailed(d) => {
                let msg = open_fault_text(path.as_str(), d.as_str());
                self.faults.record(msg);
                self.clean = Ghost(false);
            },
            LoadOutcome::ReadFailed(d) => {
                let msg = read_fault_text(path.as_str(), d.as_str());
                self.faults.record(msg);
                self.clean = Ghost(false);
            },
        }
        self.member = self.member + 1;
        if self.member == n {
            let mut group: Vec<Image> = Vec::new();
            std::mem::swap(&mut group, &mut self.current);
            proof {
                assert(ps.subrange(0, n as int) =~= ps);
                assert forall|j: int| 0 <= j < group@.len() implies self.rel@.contains((h, #[trigger] group@[j].path@)) by {
                    assert(image_paths(group@)[j] == group@[j].path@);
                    assert(image_paths(group@).to_set().contains(group@[j].path@));
                    assert(ps.to_set().contains(group@[j].path@));
                    assert(members(self.rel@, h).contains(group@[j].path@));
                }
                assert(group@.len() == image_paths(group@).len());
            }
            if group.len() >= 2 {
                proof {
                    assert(under_hash(self.rel@, group@, h));
                    assert forall|j: int| 0 <= j < group@.len() implies accepted(self.exts@, #[trigger] group@[j].path@) by {
                        assert(self.rel@.contains((h, group@[j].path@)));
                    }
                }
                let ghost gv = group@;
                self.done.push(group);
                proof {
                    let nx = self.next as int;
                    assert(self.done@[done_before.len() as int]@ == gv);
                    assert forall|i: int, j: int, a: int, b: int|
                        0 <= i < j < self.done@.len() && 0 <= a < self.done@[i]@.len() && 0 <= b < self.done@[j]@.len()
                        implies (#[trigger] self.done@[i]@[a]).path@ != (#[trigger] self.done@[j]@[b]).path@ by {
                        assert(self.done@[i] == done_before[i]);
                        if j < done_before.len() {
                            assert(self.done@[j] == done_before[j]);
                        } else {
                            let p = self.done@[i]@[a].path@;
                            let k = choose|k: int| 0 <= k < nx && #[trigger] in_group(self.rel@, self.groups@, k, p);
                            assert(self.rel@.contains((h, gv[b].path@)));
                            if p == gv[b].path@ {
                                assert(self.groups@[k].hash@ == h);
                                assert(self.groups@[k].hash@ != self.groups@[nx].hash@);
                            }
                        }
                    }
                    assert forall|i: int, a: int| 0 <= i < self.done@.len() && 0 <= a < self.done@[i]@.len()
                        implies exists|k: int| 0 <= k < self.next + 1 && #[trigger] in_group(self.rel@, self.groups@, k, (#[trigger] self.done@[i]@[a]).path@) by {
                        if i < done_before.len() {
                            assert(self.done@[i] == done_before[i]);
                            let k = choose|k: int| 0 <= k < nx && #[trigger] in_group(self.rel@, self.groups@, k, done_before[i]@[a].path@);
                            assert(in_group(self.rel@, self.groups@, k, self.done@[i]@[a].path@));
                        } else {
                            assert(self.rel@.contains((h, gv[a].path@)));
                            assert(in_group(self.rel@, self.groups@, nx, self.done@[i]@[a].path@));
                        }
                    }
                    assert forall|i: int| 0 <= i < self.done@.len() implies valid_group(self.rel@, self.exts@, #[trigger] self.done@[i]@) by {
                        if i < done_before.len() {
                            assert(self.done@[i] == done_before[i]);
                        }
                    }
                    assert(self.done@.map_values(|g: Vec<Image>| g@).drop_last() =~= old_done_view);
                }
            }
            proof {
                if self.clean@ {
                    assert forall|i: int| 0 <= i < self.next + 1 implies image_paths((#[trigger] self.done@[i])@)
                        == path_seq(self.groups@[i].paths@) by {
                        if i < self.next {
                            assert(self.done@[i] == done_before[i]);
                        }
                    }
                }
            }
            let ghost done_mid = self.done@;
            self.next = self.next + 1;
            self.member = 0;
            proof {
                assert forall|i: int, a: int| 0 <= i < self.done@.len() && 0 <= a < self.done@[i]@.len()
                    implies exists|k: int| 0 <= k < self.next && #[trigger] in_group(self.rel@, self.groups@, k, (#[trigger] self.done@[i]@[a]).path@) by {
                    let k = choose|k: int| 0 <= k < self.next && #[trigger] in_group(self.rel@, self.groups@, k, done_mid[i]@[a].path@);
                }
            }
            proof {
                if self.next < self.groups@.len() {
                    let ps2 = path_seq(self.groups@[self.next as int].paths@);
                    assert(image_paths(self.current@) =~= ps2.subrange(0, 0));
                    assert(image_paths(self.current@).to_set() =~= Set::<Seq<char>>::empty());
                }
            }
        }
    }

    /// The scan's results: empty after cancellation; otherwise the groups
    /// read through, as `on_load` kept them, and every fault of both phases.
    pub fn finish(self) -> (r: SearchResults)
        requires
            self.wf(),
        ensures
            self.is_cancelled() ==> r.duplicates@.len() == 0 && r.errors@.len() == 0,
            !self.is_cancelled() ==> {
                &&& r.duplicates@.map_values(|g: Vec<Image>| g@) == self.done()
                &&& disjoint_groups(r.duplicates@)
                &&& forall|i: int| 0 <= i < r.duplicates@.len()
                    ==> valid_group(self.relation(), self.extensions(), #[trigger] r.duplicates@[i]@)
                &&& r.errors@.map_values(|s: String| s@).to_set() == self.faults()
                &&& r.errors@.map_values(|s: String| s@).no_duplicates()
            },
            !self.is_cancelled() && self.is_done() && self.all_loaded() ==> result_sets(r.duplicates@)
                == group_sets(self.relation()),
    {
        if self.cancelled {
            return SearchResults::empty();
        }
        proof {
            if self.next == self.groups@.len() && self.clean@ {
                self.lemma_complete();
            }
        }
        SearchResults { duplicates: self.done, errors: self.faults.into_vec() }
    }

    proof fn lemma_complete(&self)
        requires
            self.wf(),
            self.next == self.groups@.len(),
            self.clean@,
        ensures
            result_sets(self.done@) == group_sets(self.rel@),
    {
        let rel = self.rel@;
        assert forall|s: Set<Seq<char>>| result_sets(self.done@).contains(s) implies group_sets(rel).contains(s) by {
            let i = choose|i: int| 0 <= i < self.done@.len() && s == image_paths((#[trigger] self.done@[i])@).to_set();
            let g = self.groups@[i];
            let ps = path_seq(g.paths@);
            assert(image_paths(self.done@[i]@) == ps);
            assert(ps.len() >= 2);
            assert(ps[0] != ps[1]);
            assert(rel.contains((g.hash@, ps[0]))) by {
                assert(ps.to_set().contains(ps[0]));
            }
            assert(rel.contains((g.hash@, ps[1]))) by {
                assert(ps.to_set().contains(ps[1]));
            }
            assert(shared(rel, g.hash@));
        }
        assert forall|s: Set<Seq<char>>| group_sets(rel).contains(s) implies result_sets(self.done@).contains(s) by {
            let h = choose|h: Seq<u8>| shared(rel, h) && s == members(rel, h);
            let i = choose|i: int| 0 <= i < self.groups@.len() && (#[trigger] self.groups@[i].hash@) == h;
            assert(image_paths(self.done@[i]@) == path_seq(self.groups@[i].paths@));
            assert(s == image_paths(self.done@[i]@).to_set());
        }
        assert(result_sets(self.done@) =~= group_sets(rel));
    }
}

impl Scan {
    /// Ends the discover phase: the groups to read are fixed, one for each
    /// hash that two paths share, and the materialize phase begins with the
    /// faults so far. `cancelled` is the flag as just read.
    pub fn into_materializer(self, cancelled: bool) -> (r: Materializer)
        requires
            self.wf(),
        ensures
            r.wf(),
            r.relation() == self.relation(),
            r.extensions() == self.extensions(),
            r.faults() == self.faults(),
            r.is_cancelled() == (self.is_cancelled() || cancelled),
            covers(r.groups(), r.relation()),
            r.next_group() == 0,
            r.next_member() == 0,
            r.current().len() == 0,
            r.done().len() == 0,
            r.all_loaded(),
    {
        let ghost rel = self.aggregator@;
        let groups = self.aggregator.into_groups();
        let r = Materializer {
            groups,
            next: 0,
            member: 0,
            current: Vec::new(),
            done: Vec::new(),
            faults: self.faults,
            cancelled: self.cancelled || cancelled,
            rel: Ghost(rel),
            exts: Ghost(self.exts@),
            clean: Ghost(true),
        };
        proof {
            if r.groups@.len() > 0 {
                assert(image_paths(r.current@) =~= path_seq(r.groups@[0].paths@).subrange(0, 0));
                assert(image_paths(r.current@).to_set() =~= Set::<Seq<char>>::empty());
            }
            assert forall|h: Seq<u8>| shared(r.rel@, h) implies exists|i: int|
                0 <= i < r.groups@.len() && (#[trigger] r.groups@[i].hash@) == h by {
                let i = choose|i: int| 0 <= i < groups@.len() && (#[trigger] groups@[i].hash@) == h;
                assert(r.groups@[i].hash@ == h);
            }
            assert(r.done@.map_values(|g: Vec<Image>| g@) =~= Seq::<Seq<Image>>::empty());
        }
        r
    }
}

} // verus!
