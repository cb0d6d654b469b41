//! Directory sizes: the entries of one directory, the recursive size of each
//! subdirectory, the progress messages sent while scanning, and the cache of
//! sizes already computed.
//!
//! The file system itself is read by the caller into an `FsEntry` tree; the
//! functions here compute on that tree.

use vstd::prelude::*;
use crate::text::{chars_of, contains_name, views_of};

verus! {

// ── Entries and messages ──────────────────────────────────────────────

/// One row of a directory listing.
pub struct FileEntry {
    pub name: String,
    pub path: String,
    /// Size in bytes; the recursive size for a directory.
    pub size: u64,
    pub is_dir: bool,
    /// Unix timestamp (seconds) of last modification, if available.
    pub modified: Option<u64>,
}

/// What a `FileEntry` holds, as plain values.
pub struct FileEntryView {
    pub name: Seq<char>,
    pub path: Seq<char>,
    pub size: u64,
    pub is_dir: bool,
    pub modified: Option<u64>,
}

impl View for FileEntry {
    type V = FileEntryView;

    open spec fn view(&self) -> FileEntryView {
        FileEntryView {
            name: self.name@,
            path: self.path@,
            size: self.size,
            is_dir: self.is_dir,
            modified: self.modified,
        }
    }
}

/// The views of a sequence of entries.
pub open spec fn entry_views(s: Seq<FileEntry>) -> Seq<FileEntryView> {
    s.map_values(|e: FileEntry| e@)
}

impl FileEntry {
    /// A copy of this entry.
    pub fn duplicate(&self) -> (r: FileEntry)
        ensures
            r@ == self@,
    {
        FileEntry {
            name: self.name.clone(),
            path: self.path.clone(),
            size: self.size,
            is_dir: self.is_dir,
            modified: self.modified,
        }
    }
}

/// A copy of every entry of `v`, in order.
pub fn duplicate_entries(v: &Vec<FileEntry>) -> (r: Vec<FileEntry>)
    ensures
        entry_views(r@) == entry_views(v@),
{
    let mut r: Vec<FileEntry> = Vec::new();
    let mut i: usize = 0;
    while i < v.len()
        invariant
            i <= v@.len(),
            r@.len() == i,
            forall|j: int| 0 <= j < i ==> #[trigger] r@[j]@ == v@[j]@,
        decreases v@.len() - i,
    {
        r.push(v[i].duplicate());
        i = i + 1;
    }
    assert(entry_views(r@) =~= entry_views(v@));
    r
}

/// A message from a running scan to the browser.
pub enum ScanMessage {
    Progress { scanned_files: usize, current_path: String },
    Finished { entries: Vec<FileEntry>, total_size: u64 },
}

/// What a `ScanMessage` holds, as plain values.
pub enum MessageView {
    Progress { scanned_files: usize, current_path: Seq<char> },
    Finished { entries: Seq<FileEntryView>, total_size: u64 },
}

impl View for ScanMessage {
    type V = MessageView;

    open spec fn view(&self) -> MessageView {
        match self {
            ScanMessage::Progress { scanned_files, current_path } => MessageView::Progress {
                scanned_files: *scanned_files,
                current_path: current_path@,
            },
            ScanMessage::Finished { entries, total_size } => MessageView::Finished {
                entries: entry_views(entries@),
                total_size: *total_size,
            },
        }
    }
}

/// The views of a sequence of messages.
pub open spec fn message_views(s: Seq<ScanMessage>) -> Seq<MessageView> {
    s.map_values(|m: ScanMessage| m@)
}

// ── The size cache ────────────────────────────────────────────────────

/// Sizes of directories already scanned in full, by path.
pub struct SizeCache {
    entries: Vec<(String, u64)>,
    contents: Ghost<Map<Seq<char>, u64>>,
}

impl View for SizeCache {
    type V = Map<Seq<char>, u64>;

    closed spec fn view(&self) -> Map<Seq<char>, u64> {
        self.contents@
    }
}

impl SizeCache {
    /// No path occurs twice, and the map holds exactly the stored pairs.
    pub closed spec fn wf(&self) -> bool {
        &&& forall|i: int, j: int|
            0 <= i < j < self.entries@.len() ==> self.entries@[i].0@ != self.entries@[j].0@
        &&& forall|i: int|
            0 <= i < self.entries@.len() ==> self.contents@.contains_key(
                #[trigger] self.entries@[i].0@,
            ) && self.contents@[self.entries@[i].0@] == self.entries@[i].1
        &&& forall|k: Seq<char>|
            self.contents@.contains_key(k) ==> exists|i: int|
                0 <= i < self.entries@.len() && #[trigger] self.entries@[i].0@ == k
    }

    /// An empty cache.
    pub fn new() -> (c: SizeCache)
        ensures
            c.wf(),
            c@ == Map::<Seq<char>, u64>::empty(),
    {
        SizeCache { entries: Vec::new(), contents: Ghost(Map::empty()) }
    }

    /// The position of `path` among the stored pairs.
    fn find(&self, path: &String) -> (r: Option<usize>)
        requires
            self.wf(),
        ensures
            r is None <==> !self@.contains_key(path@),
            r matches Some(i) ==> i < self.entries@.len() && self.entries@[i as int].0@ == path@,
    {
        let mut i: usize = 0;
        while i < self.entries.len()
            invariant
                self.wf(),
                i <= self.entries@.len(),
                forall|j: int| 0 <= j < i ==> #[trigger] self.entries@[j].0@ != path@,
            decreases self.entries@.len() - i,
        {
            if self.entries[i].0 == *path {
                return Some(i);
            }
            i = i + 1;
        }
        None
    }

    /// The size stored for `path`, if any.
    pub fn get(&self, path: &String) -> (r: Option<u64>)
        requires
            self.wf(),
        ensures
            r == (if self@.contains_key(path@) {
                Some(self@[path@])
            } else {
                None
            }),
    {
        match self.find(path) {
            Some(i) => Some(self.entries[i].1),
            None => None,
        }
    }

    /// Stores `size` for `path`, replacing what was stored before.
    pub fn insert(&mut self, path: String, size: u64)
        requires
            old(self).wf(),
        ensures
            final(self).wf(),
            final(self)@ == old(self)@.insert(path@, size),
    {
        let ghost key = path@;
        let ghost mut at: int = 0;
        match self.find(&path) {
            Some(i) => {
                self.entries.set(i, (path, size));
                proof {
                    at = i as int;
                }
            },
            None => {
                self.entries.push((path, size));
                proof {
                    at = self.entries@.len() - 1;
                }
            },
        }
        assert(self.entries@[at].0@ == key);
        self.contents = Ghost(self.contents@.insert(key, size));
        assert forall|k: Seq<char>| self.contents@.contains_key(k) implies exists|i: int|
            0 <= i < self.entries@.len() && #[trigger] self.entries@[i].0@ == k by {
            if k != key {
                let i = choose|i: int|
                    0 <= i < old(self).entries@.len() && #[trigger] old(self).entries@[i].0@ == k;
                assert(self.entries@[i].0@ == k);
            } else {
                assert(self.entries@[at].0@ == k);
            }
        }
    }

    /// Forgets the size stored for `path`, if any.
    pub fn remove(&mut self, path: &String)
        requires
            old(self).wf(),
        ensures
            final(self).wf(),
            final(self)@ == old(self)@.remove(path@),
    {
        match self.find(path) {
            Some(i) => {
                let ghost old_entries = self.entries@;
                self.entries.remove(i);
                self.contents = Ghost(self.contents@.remove(path@));
                assert forall|k: Seq<char>| self.contents@.contains_key(k) implies exists|j: int|
                    0 <= j < self.entries@.len() && #[trigger] self.entries@[j].0@ == k by {
                    let j = choose|j: int|
                        0 <= j < old_entries.len() && #[trigger] old_entries[j].0@ == k;
                    if j < i {
                        assert(self.entries@[j].0@ == k);
                    } else {
                        assert(j != i);
                        assert(self.entries@[j - 1].0@ == k);
                    }
                }
            },
            None => {
                assert(self@.remove(path@) =~= self@);
            },
        }
    }

    /// Forgets every stored size.
    pub fn clear(&mut self)
        requires
            old(self).wf(),
        ensures
            final(self).wf(),
            final(self)@ == Map::<Seq<char>, u64>::empty(),
    {
        self.entries.clear();
        self.contents = Ghost(Map::empty());
    }

    /// The number of stored sizes.
    pub fn len(&self) -> (n: usize)
        requires
            self.wf(),
        ensures
            n == self@.dom().len(),
    {
        proof {
            self.lemma_dom_len();
        }
        self.entries.len()
    }

    proof fn lemma_dom_len(&self)
        requires
            self.wf(),
        ensures
            self@.dom().len() == self.entries@.len(),
            self@.dom().finite(),
    {
        let keys = self.entries@.map_values(|p: (String, u64)| p.0@);
        assert(keys.no_duplicates()) by {
            assert forall|i: int, j: int|
                0 <= i < keys.len() && 0 <= j < keys.len() && i != j implies keys[i] != keys[j] by {
                if i < j {
                } else {
                }
            }
        }
        assert(keys.to_set() =~= self@.dom()) by {
            assert forall|k: Seq<char>| self@.dom().contains(k) implies keys.to_set().contains(k) by {
                let i = choose|i: int|
                    0 <= i < self.entries@.len() && #[trigger] self.entries@[i].0@ == k;
                assert(keys[i] == k);
            }
            assert forall|k: Seq<char>| keys.to_set().contains(k) implies self@.dom().contains(
                k,
            ) by {
                let i = choose|i: int| 0 <= i < keys.len() && keys[i] == k;
                assert(self.entries@[i].0@ == k);
            }
        }
        keys.unique_seq_to_set();
    }
}

/// The shared cache of a scanning process, created empty on first use.
pub fn cache(slot: &mut Option<SizeCache>) -> (c: &mut SizeCache)
    requires
        *old(slot) matches Some(s) ==> s.wf(),
    ensures
        c.wf(),
        *old(slot) is None ==> c@ == Map::<Seq<char>, u64>::empty(),
        *old(slot) matches Some(s) ==> *c == s,
        *final(slot) == Some(*final(c)),
{
    slot.get_or_insert(SizeCache::new())
}

/// Empties the shared cache, if it has been created.
pub fn clear_cache(slot: &mut Option<SizeCache>)
    requires
        *old(slot) matches Some(s) ==> s.wf(),
    ensures
        *old(slot) is None ==> *final(slot) == *old(slot),
        *old(slot) is Some ==> (*final(slot) matches Some(s) && s.wf() && s@ == Map::<
            Seq<char>,
            u64,
        >::empty()),
{
    match slot {
        Some(m) => m.clear(),
        None => {},
    }
}

} // verus!

verus! {

// ── The file system as read by the caller ─────────────────────────────

/// What the metadata of a directory entry says.
pub struct FsMeta {
    pub is_dir: bool,
    pub is_file: bool,
    /// `Metadata::len`.
    pub len: u64,
    /// Seconds since the Unix epoch of the last modification, if known.
    pub modified: Option<u64>,
}

/// A directory entry, with the listing of its contents when it is a
/// directory that was read.
pub struct FsEntry {
    pub name: String,
    pub path: String,
    /// `None` when the metadata could not be read.
    pub meta: Option<FsMeta>,
    /// The items of the directory, `None` when it could not be listed (or is
    /// not a directory).
    pub contents: Option<Vec<FsItem>>,
}

/// One item yielded while listing a directory.
pub enum FsItem {
    /// The listing yielded an error in place of an entry.
    Unreadable,
    Present(FsEntry),
}

/// The items listed for `d`; none when it could not be listed.
pub open spec fn items_of(d: FsEntry) -> Seq<FsItem> {
    match d.contents {
        Some(v) => v@,
        None => Seq::empty(),
    }
}

/// The number of items listed anywhere below `d`.
pub open spec fn subtree_items(d: FsEntry) -> nat
    decreases d, items_of(d).len() + 1,
{
    items_from(d, 0)
}

/// The number of items listed below `d` from its `i`-th item on.
pub open spec fn items_from(d: FsEntry, i: int) -> nat
    decreases d, items_of(d).len() - i,
{
    if i < 0 || i >= items_of(d).len() {
        0
    } else {
        let below: nat = match items_of(d)[i] {
            FsItem::Present(e) => {
                proof {
                    assert(decreases_to!(d => e));
                }
                subtree_items(e)
            },
            FsItem::Unreadable => 0,
        };
        1 + below + items_from(d, i + 1)
    }
}

/// `a + b`, or `u64::MAX` where the sum does not fit.
pub open spec fn sat_add(a: u64, b: u64) -> u64 {
    if a + b > u64::MAX {
        u64::MAX
    } else {
        (a + b) as u64
    }
}

/// The depth limit handed to a subdirectory: one less, but never below 0.
pub open spec fn deeper(d: Option<usize>) -> Option<usize> {
    match d {
        Some(n) => Some(
            if n == 0 {
                0usize
            } else {
                (n - 1) as usize
            },
        ),
        None => None,
    }
}

/// What a scan carries from one entry to the next.
pub struct WalkState {
    /// Items counted so far.
    pub counter: int,
    pub cache: Map<Seq<char>, u64>,
    /// Messages sent so far.
    pub messages: Seq<MessageView>,
}

/// `st` with one more item counted; the new count is reported, with
/// `path`, when it is a multiple of `every`.
pub open spec fn counted(st: WalkState, every: int, path: Seq<char>) -> WalkState {
    let c = st.counter + 1;
    WalkState {
        counter: c,
        messages: if c % every == 0 {
            st.messages.push(MessageView::Progress { scanned_files: c as usize, current_path: path })
        } else {
            st.messages
        },
        ..st
    }
}

/// The size of directory `dir` and the state after computing it: a
/// full-depth scan (`depth` is `None`) answers from the cache when it can
/// and records its result there; a depth of 0 gives 0; otherwise the items
/// are walked in order.
pub open spec fn walk_dir(dir: FsEntry, ignored: Seq<Seq<char>>, depth: Option<usize>, st: WalkState) -> (u64, WalkState)
    decreases dir, items_of(dir).len() + 1,
{
    if depth is None && st.cache.contains_key(dir.path@) {
        (st.cache[dir.path@], st)
    } else if depth == Some(0usize) {
        (0, st)
    } else {
        let r = walk_items(dir, 0, ignored, depth, 0, st);
        if depth is None {
            (r.0, WalkState { cache: r.1.cache.insert(dir.path@, r.0), ..r.1 })
        } else {
            r
        }
    }
}

/// Walks the items of `dir` from the `i`-th on, with `acc` bytes counted so
/// far. Each item that is not an error is counted (and every 50th count is
/// reported with the directory's path); items with an ignored name, without
/// metadata, or neither file nor directory add nothing; files add their
/// length, directories their size one level deeper; sums saturate.
pub open spec fn walk_items(
    dir: FsEntry,
    i: int,
    ignored: Seq<Seq<char>>,
    depth: Option<usize>,
    acc: u64,
    st: WalkState,
) -> (u64, WalkState)
    decreases dir, items_of(dir).len() - i,
{
    if i < 0 || i >= items_of(dir).len() {
        (acc, st)
    } else {
        match items_of(dir)[i] {
            FsItem::Unreadable => walk_items(dir, i + 1, ignored, depth, acc, st),
            FsItem::Present(e) => {
                let st1 = counted(st, 50, dir.path@);
                if ignored.contains(e.name@) {
                    walk_items(dir, i + 1, ignored, depth, acc, st1)
                } else {
                    match e.meta {
                        None => walk_items(dir, i + 1, ignored, depth, acc, st1),
                        Some(m) => {
                            if m.is_file {
                                walk_items(dir, i + 1, ignored, depth, sat_add(acc, m.len), st1)
                            } else if m.is_dir {
                                proof {
                                    assert(decreases_to!(dir => e));
                                }
                                let r = walk_dir(e, ignored, deeper(depth), st1);
                                walk_items(dir, i + 1, ignored, depth, sat_add(acc, r.0), r.1)
                            } else {
                                walk_items(dir, i + 1, ignored, depth, acc, st1)
                            }
                        },
                    }
                }
            },
        }
    }
}

} // verus!

verus! {

/// The depth limit handed to a subdirectory: one less, but never below 0.
pub fn deeper_limit(d: Option<usize>) -> (r: Option<usize>)
    ensures
        r == deeper(d),
{
    match d {
        Some(n) => Some(n.saturating_sub(1)),
        None => None,
    }
}

/// Whether a scan ever looks at the listing of the directory `path` named
/// `name`, reached with depth limit `depth`: not when the name is ignored,
/// not when no depth is left, and not when a full-depth scan finds its size
/// in the cache.
pub fn contents_needed(
    name: &String,
    path: &String,
    ignored: &Vec<String>,
    depth: Option<usize>,
    cache: &SizeCache,
) -> (b: bool)
    requires
        cache.wf(),
    ensures
        b == (!views_of(ignored@).contains(name@) && depth != Some(0usize) && !(depth is None
            && cache@.contains_key(path@))),
{
    if contains_name(ignored, name) {
        return false;
    }
    match depth {
        Some(n) => n != 0,
        None => cache.get(path).is_none(),
    }
}

/// The state a scan is in, as the spec functions see it.
pub open spec fn walk_state(counter: usize, cache: SizeCache, tx: Seq<ScanMessage>) -> WalkState {
    WalkState { counter: counter as int, cache: cache@, messages: message_views(tx) }
}

/// The size in bytes of the directory `dir`, counting the items listed on
/// the way in `counter` and reporting every 50th count on `tx`. Entries named
/// in `ignored` are skipped; `remaining_depth` limits how deep the walk goes
/// (`None`: no limit, and then the cache is used and filled).
pub fn dir_size_with_progress(
    dir: &FsEntry,
    tx: &mut Vec<ScanMessage>,
    counter: &mut usize,
    ignored: &Vec<String>,
    remaining_depth: Option<usize>,
    cache: &mut SizeCache,
) -> (total: u64)
    requires
        old(cache).wf(),
        *old(counter) + subtree_items(*dir) <= usize::MAX,
    ensures
        final(cache).wf(),
        *final(counter) <= *old(counter) + subtree_items(*dir),
        (total, walk_state(*final(counter), *final(cache), final(tx)@)) == walk_dir(
            *dir,
            views_of(ignored@),
            remaining_depth,
            walk_state(*old(counter), *old(cache), old(tx)@),
        ),
    decreases *dir, items_of(*dir).len() + 1,
{
    let ghost ign = views_of(ignored@);
    let ghost start = walk_state(*counter, *cache, tx@);
    if remaining_depth.is_none() {
        match cache.get(&dir.path) {
            Some(cached) => {
                return cached;
            },
            None => {},
        }
    }
    match remaining_depth {
        Some(d) => {
            if d == 0 {
                return 0;
            }
        },
        None => {},
    }
    let mut total: u64 = 0;
    match &dir.contents {
        None => {},
        Some(items) => {
            let mut i: usize = 0;
            while i < items.len()
                invariant
                    items@ == items_of(*dir),
                    i <= items@.len(),
                    cache.wf(),
                    *counter + items_from(*dir, i as int) <= usize::MAX,
                    *counter + items_from(*dir, i as int) <= start.counter + items_from(*dir, 0),
                    ign == views_of(ignored@),
                    walk_items(*dir, i as int, ign, remaining_depth, total, walk_state(*counter, *cache, tx@))
                        == walk_items(*dir, 0, ign, remaining_depth, 0, start),
                decreases items@.len() - i,
            {
                let ghost before = walk_state(*counter, *cache, tx@);
                match &items[i] {
                    FsItem::Unreadable => {},
                    FsItem::Present(e) => {
                        *counter = *counter + 1;
                        if *counter % 50 == 0 {
                            tx.push(ScanMessage::Progress { scanned_files: *counter, current_path: dir.path.clone() });
                        }
                        assert(message_views(tx@) =~= counted(before, 50, dir.path@).messages);
                        if contains_name(ignored, &e.name) {
                        } else {
                            match &e.meta {
                                None => {},
                                Some(m) => {
                                    if m.is_file {
                                        total = total.saturating_add(m.len);
                                    } else if m.is_dir {
                                        let next = deeper_limit(remaining_depth);
                                        proof {
                                            assert(decreases_to!(*dir => *e));
                                        }
                                        let sub = dir_size_with_progress(e, tx, counter, ignored, next, cache);
                                        total = total.saturating_add(sub);
                                    }
                                },
                            }
                        }
                    },
                }
                i = i + 1;
            }
        },
    }
    if remaining_depth.is_none() {
        cache.insert(dir.path.clone(), total);
    }
    total
}

} // verus!

verus! {

/// Why a scan of a directory failed.
#[derive(Clone, Copy, Debug, PartialEq, Eq, Structural)]
pub enum ScanError {
    /// The directory could not be listed.
    ReadDir,
    /// The listing yielded an error in place of an entry.
    ReadEntry,
}

/// What a scan of the top-level listing carries from one entry to the next.
pub struct ScanState {
    pub walk: WalkState,
    /// The rows collected so far, in listing order.
    pub entries: Seq<FileEntryView>,
    pub total: u64,
}

/// Scans the items of `root` from the `i`-th on, one `scan_step` each. An
/// error item stops the scan (`false`, with the state reached).
pub open spec fn scan_items(
    root: FsEntry,
    i: int,
    ignored: Seq<Seq<char>>,
    depth: Option<usize>,
    st: ScanState,
) -> (bool, ScanState)
    decreases items_of(root).len() - i,
{
    if i < 0 || i >= items_of(root).len() {
        (true, st)
    } else {
        let r = scan_step(items_of(root)[i], ignored, depth, st);
        if r.0 {
            scan_items(root, i + 1, ignored, depth, r.1)
        } else {
            (false, st)
        }
    }
}

/// The state at the start of a scan.
pub open spec fn scan_start(cache: Map<Seq<char>, u64>, messages: Seq<MessageView>) -> ScanState {
    ScanState { walk: WalkState { counter: 0, cache, messages }, entries: Seq::empty(), total: 0 }
}

/// The outcome of scanning the listing of `root` from the given cache and
/// messages: whether it ran to the end, and the state it reached.
pub open spec fn scan_of(root: FsEntry, ignored: Seq<String>, depth: Option<usize>, cache: SizeCache, tx: Seq<ScanMessage>) -> (bool, ScanState) {
    scan_items(root, 0, views_of(ignored), depth, scan_start(cache@, message_views(tx)))
}

/// One item of the top-level listing, scanned from state `st`: an error
/// item stops the scan (`false`, the state unchanged); an item without
/// metadata or with an ignored name is skipped; any other item is counted
/// (every 10th count reported with its path) and becomes a row whose size
/// is its length, or for a directory its size with the depth limit lowered
/// by one; the total adds the sizes, saturating.
pub open spec fn scan_step(item: FsItem, ignored: Seq<Seq<char>>, depth: Option<usize>, st: ScanState) -> (bool, ScanState) {
    match item {
        FsItem::Unreadable => (false, st),
        FsItem::Present(e) => match e.meta {
            None => (true, st),
            Some(m) => {
                if ignored.contains(e.name@) {
                    (true, st)
                } else {
                    let w1 = counted(st.walk, 10, e.path@);
                    let r = if m.is_dir {
                        walk_dir(e, ignored, deeper(depth), w1)
                    } else {
                        (m.len, w1)
                    };
                    let row = FileEntryView {
                        name: e.name@,
                        path: e.path@,
                        size: r.0,
                        is_dir: m.is_dir,
                        modified: m.modified,
                    };
                    (true, ScanState { walk: r.1, entries: st.entries.push(row), total: sat_add(st.total, r.0) })
                }
            },
        },
    }
}

/// The number of items counted at most while scanning `item`.
pub open spec fn item_count(item: FsItem) -> nat {
    match item {
        FsItem::Present(e) => 1 + subtree_items(e),
        FsItem::Unreadable => 0,
    }
}

/// A scan of a top-level listing under way: the rows so far, in listing
/// order, their total, and the number of items counted.
pub struct ScanProgress {
    pub entries: Vec<FileEntry>,
    pub total: u64,
    pub counter: usize,
}

/// The state a scan under way is in, as the spec functions see it.
pub open spec fn progress_state(p: ScanProgress, cache: SizeCache, tx: Seq<ScanMessage>) -> ScanState {
    ScanState { walk: walk_state(p.counter, cache, tx), entries: entry_views(p.entries@), total: p.total }
}

impl ScanProgress {
    /// A scan that has seen nothing yet.
    pub fn new() -> (p: ScanProgress)
        ensures
            p.entries@.len() == 0,
            p.total == 0,
            p.counter == 0,
    {
        ScanProgress { entries: Vec::new(), total: 0, counter: 0 }
    }
}

/// Scans one item of the top-level listing, as `scan_step` says: its row
/// is added, progress is reported on `tx`, and a directory's size is
/// computed with `max_depth` lowered by one. Gives `false` for an error
/// item, which stops a scan.
pub fn scan_entry(
    item: &FsItem,
    progress: &mut ScanProgress,
    tx: &mut Vec<ScanMessage>,
    ignored_dirs: &Vec<String>,
    max_depth: Option<usize>,
    cache: &mut SizeCache,
) -> (ok: bool)
    requires
        old(cache).wf(),
        old(progress).counter + item_count(*item) <= usize::MAX,
    ensures
        final(cache).wf(),
        final(progress).counter <= old(progress).counter + item_count(*item),
        (ok, progress_state(*final(progress), *final(cache), final(tx)@)) == scan_step(
            *item,
            views_of(ignored_dirs@),
            max_depth,
            progress_state(*old(progress), *old(cache), old(tx)@),
        ),
{
    match item {
        FsItem::Unreadable => false,
        FsItem::Present(e) => {
            match &e.meta {
                None => {},
                Some(m) => {
                    if !contains_name(ignored_dirs, &e.name) {
                        let ghost before = walk_state(progress.counter, *cache, tx@);
                        let mut counter = progress.counter + 1;
                        if counter % 10 == 0 {
                            tx.push(ScanMessage::Progress { scanned_files: counter, current_path: e.path.clone() });
                        }
                        assert(message_views(tx@) =~= counted(before, 10, e.path@).messages);
                        let size: u64 = if m.is_dir {
                            let inner = deeper_limit(max_depth);
                            dir_size_with_progress(e, tx, &mut counter, ignored_dirs, inner, cache)
                        } else {
                            m.len
                        };
                        progress.counter = counter;
                        progress.total = progress.total.saturating_add(size);
                        let ghost old_rows = entry_views(progress.entries@);
                        progress.entries.push(FileEntry {
                            name: e.name.clone(),
                            path: e.path.clone(),
                            size,
                            is_dir: m.is_dir,
                            modified: m.modified,
                        });
                        assert(entry_views(progress.entries@) =~= old_rows.push(progress.entries@.last()@));
                    }
                },
            }
            true
        },
    }
}

/// Ends a scan: its rows, largest first, and their total; the result is
/// also sent on `tx`.
pub fn finish_scan(progress: ScanProgress, tx: &mut Vec<ScanMessage>) -> (r: (Vec<FileEntry>, u64))
    ensures
        entry_views(r.0@) == crate::sorting::sorted_by(entry_views(progress.entries@), crate::app::SortMode::Size),
        r.1 == progress.total,
        message_views(final(tx)@) == message_views(old(tx)@).push(
            MessageView::Finished { entries: entry_views(r.0@), total_size: r.1 },
        ),
{
    let sorted = crate::sorting::sort_entries(&progress.entries, crate::app::SortMode::Size);
    tx.push(ScanMessage::Finished { entries: duplicate_entries(&sorted), total_size: progress.total });
    assert(message_views(tx@) =~= message_views(old(tx)@).push(
        MessageView::Finished { entries: entry_views(sorted@), total_size: progress.total },
    ));
    (sorted, progress.total)
}

/// `scan_items` takes one `scan_step` at a time.
proof fn lemma_scan_items_unfold(root: FsEntry, i: int, ignored: Seq<Seq<char>>, depth: Option<usize>, st: ScanState)
    requires
        0 <= i < items_of(root).len(),
    ensures
        items_from(root, i) >= item_count(items_of(root)[i]) + items_from(root, i + 1),
        scan_items(root, i, ignored, depth, st) == (if scan_step(items_of(root)[i], ignored, depth, st).0 {
            scan_items(root, i + 1, ignored, depth, scan_step(items_of(root)[i], ignored, depth, st).1)
        } else {
            (false, st)
        }),
{
}

/// Lists the directory `root` with the size of each entry (recursive for
/// subdirectories), largest first, and the total of the sizes. Progress is
/// reported on `tx`, and the result is sent there too; entries named in
/// `ignored_dirs` are left out; `max_depth` limits how deep the walk goes,
/// counting the top-level listing as the first level.
pub fn scan_directory_with_progress(
    root: &FsEntry,
    tx: &mut Vec<ScanMessage>,
    ignored_dirs: &Vec<String>,
    max_depth: Option<usize>,
    cache: &mut SizeCache,
) -> (r: Result<(Vec<FileEntry>, u64), ScanError>)
    requires
        old(cache).wf(),
        subtree_items(*root) <= usize::MAX,
    ensures
        final(cache).wf(),
        root.contents is None ==> r == Err::<(Vec<FileEntry>, u64), ScanError>(ScanError::ReadDir)
            && final(tx)@ == old(tx)@ && final(cache)@ == old(cache)@,
        root.contents is Some ==> final(cache)@ == scan_of(*root, ignored_dirs@, max_depth, *old(cache), old(tx)@).1.walk.cache,
        root.contents is Some && scan_of(*root, ignored_dirs@, max_depth, *old(cache), old(tx)@).0 ==> (r matches Ok((entries, total))
            && entry_views(entries@) == crate::sorting::sorted_by(
                scan_of(*root, ignored_dirs@, max_depth, *old(cache), old(tx)@).1.entries,
                crate::app::SortMode::Size,
            ) && total == scan_of(*root, ignored_dirs@, max_depth, *old(cache), old(tx)@).1.total
            && message_views(final(tx)@) == scan_of(*root, ignored_dirs@, max_depth, *old(cache), old(tx)@).1.walk.messages.push(
                MessageView::Finished { entries: entry_views(entries@), total_size: total },
            )),
        root.contents is Some && !scan_of(*root, ignored_dirs@, max_depth, *old(cache), old(tx)@).0 ==> r
            == Err::<(Vec<FileEntry>, u64), ScanError>(ScanError::ReadEntry),
        root.contents is Some && !scan_of(*root, ignored_dirs@, max_depth, *old(cache), old(tx)@).0 ==> message_views(final(tx)@)
            == scan_of(*root, ignored_dirs@, max_depth, *old(cache), old(tx)@).1.walk.messages,
{
    let items = match &root.contents {
        None => {
            return Err(ScanError::ReadDir);
        },
        Some(items) => items,
    };
    let ghost ign = views_of(ignored_dirs@);
    let ghost start = scan_start(cache@, message_views(tx@));
    let ghost full = scan_items(*root, 0, ign, max_depth, start);
    let mut progress = ScanProgress::new();
    let mut i: usize = 0;
    assert(entry_views(progress.entries@) =~= Seq::<FileEntryView>::empty());
    while i < items.len()
        invariant
            items@ == items_of(*root),
            i <= items@.len(),
            cache.wf(),
            ign == views_of(ignored_dirs@),
            progress.counter + items_from(*root, i as int) <= items_from(*root, 0),
            items_from(*root, 0) == subtree_items(*root),
            subtree_items(*root) <= usize::MAX,
            start == scan_start(old(cache)@, message_views(old(tx)@)),
            full == scan_items(*root, 0, ign, max_depth, start),
            scan_items(*root, i as int, ign, max_depth, progress_state(progress, *cache, tx@)) == full,
        decreases items@.len() - i,
    {
        proof {
            lemma_scan_items_unfold(*root, i as int, ign, max_depth, progress_state(progress, *cache, tx@));
        }
        let ok = scan_entry(&items[i], &mut progress, tx, ignored_dirs, max_depth, cache);
        if !ok {
            assert(full.0 == false && full.1 == progress_state(progress, *cache, tx@));
            return Err(ScanError::ReadEntry);
        }
        i = i + 1;
    }
    let r = finish_scan(progress, tx);
    Ok(r)
}

} // verus!

verus! {

// ── What holds of every scan ──────────────────────────────────────────

/// `x` as a `u64`, or `u64::MAX` when it does not fit.
pub open spec fn cap(x: int) -> u64 {
    if x > u64::MAX {
        u64::MAX
    } else if x < 0 {
        0
    } else {
        x as u64
    }
}

/// The sum of the sizes of `s`.
pub open spec fn size_sum(s: Seq<FileEntryView>) -> int
    decreases s.len(),
{
    if s.len() == 0 {
        0
    } else {
        size_sum(s.drop_last()) + s.last().size
    }
}

proof fn lemma_size_sum_concat(a: Seq<FileEntryView>, b: Seq<FileEntryView>)
    ensures
        size_sum(a + b) == size_sum(a) + size_sum(b),
    decreases b.len(),
{
    if b.len() == 0 {
        assert(a + b =~= a);
    } else {
        lemma_size_sum_concat(a, b.drop_last());
        assert((a + b).drop_last() =~= a + b.drop_last());
    }
}

proof fn lemma_size_sum_nonneg(a: Seq<FileEntryView>)
    ensures
        size_sum(a) >= 0,
    decreases a.len(),
{
    if a.len() > 0 {
        lemma_size_sum_nonneg(a.drop_last());
    }
}

/// Sorting leaves the sum of the sizes as it was.
pub proof fn lemma_size_sum_sorted(s: Seq<FileEntryView>, mode: crate::app::SortMode)
    ensures
        size_sum(crate::sorting::sorted_by(s, mode)) == size_sum(s),
    decreases s.len(),
{
    if s.len() > 0 {
        let r = crate::sorting::sorted_by(s.drop_last(), mode);
        let x = s.last();
        lemma_size_sum_sorted(s.drop_last(), mode);
        crate::sorting::lemma_sorted_by_is_sorted(s.drop_last(), mode);
        let p = crate::sorting::insert_pos(r, x, mode);
        crate::sorting::lemma_insert_pos_bounds(r, x, mode);
        assert(r.insert(p, x) =~= r.take(p) + (seq![x] + r.skip(p)));
        assert(r =~= r.take(p) + r.skip(p));
        lemma_size_sum_concat(r.take(p), seq![x] + r.skip(p));
        lemma_size_sum_concat(seq![x], r.skip(p));
        lemma_size_sum_concat(r.take(p), r.skip(p));
        assert(seq![x].drop_last() =~= Seq::<FileEntryView>::empty());
        assert(size_sum(Seq::<FileEntryView>::empty()) == 0);
        assert(seq![x].len() == 1 && seq![x].last() == x);
        assert(size_sum(seq![x]) == size_sum(seq![x].drop_last()) + x.size);
        assert(size_sum(seq![x]) == x.size);
        assert(crate::sorting::sorted_by(s, mode) == r.insert(p, x));
    }
}

proof fn lemma_scan_rows(root: FsEntry, i: int, ignored: Seq<Seq<char>>, depth: Option<usize>, st: ScanState)
    requires
        0 <= i,
        st.total == cap(size_sum(st.entries)),
    ensures
        ({
            let r = scan_items(root, i, ignored, depth, st).1;
            &&& r.entries.len() >= st.entries.len()
            &&& forall|k: int| 0 <= k < st.entries.len() ==> #[trigger] r.entries[k] == st.entries[k]
            &&& forall|k: int|
                st.entries.len() <= k < r.entries.len() ==> !ignored.contains(#[trigger] r.entries[k].name)
            &&& depth == Some(1usize) ==> forall|k: int|
                st.entries.len() <= k < r.entries.len() && (#[trigger] r.entries[k]).is_dir ==> r.entries[k].size == 0
            &&& r.total == cap(size_sum(r.entries))
        }),
    decreases items_of(root).len() - i,
{
    if i < items_of(root).len() {
        match items_of(root)[i] {
            FsItem::Unreadable => {},
            FsItem::Present(e) => match e.meta {
                None => {
                    lemma_scan_rows(root, i + 1, ignored, depth, st);
                },
                Some(m) => {
                    if ignored.contains(e.name@) {
                        lemma_scan_rows(root, i + 1, ignored, depth, st);
                    } else {
                        let w1 = counted(st.walk, 10, e.path@);
                        let r = if m.is_dir {
                            walk_dir(e, ignored, deeper(depth), w1)
                        } else {
                            (m.len, w1)
                        };
                        let row = FileEntryView {
                            name: e.name@,
                            path: e.path@,
                            size: r.0,
                            is_dir: m.is_dir,
                            modified: m.modified,
                        };
                        let next = ScanState { walk: r.1, entries: st.entries.push(row), total: sat_add(st.total, r.0) };
                        lemma_size_sum_nonneg(st.entries);
                        assert(next.entries.drop_last() =~= st.entries);
                        assert(next.total == cap(size_sum(next.entries)));
                        lemma_scan_rows(root, i + 1, ignored, depth, next);
                        let fin = scan_items(root, i + 1, ignored, depth, next).1;
                        assert(fin.entries[st.entries.len() as int] == row);
                    }
                },
            },
        }
    }
}

/// The total of a scan is the sum of the sizes of the listed entries,
/// capped at `u64::MAX`.
pub proof fn lemma_scan_total_is_sum(
    root: FsEntry,
    ignored: Seq<Seq<char>>,
    depth: Option<usize>,
    cache: Map<Seq<char>, u64>,
    messages: Seq<MessageView>,
)
    ensures
        ({
            let st = scan_items(root, 0, ignored, depth, scan_start(cache, messages)).1;
            st.total == cap(size_sum(crate::sorting::sorted_by(st.entries, crate::app::SortMode::Size)))
        }),
{
    lemma_scan_rows(root, 0, ignored, depth, scan_start(cache, messages));
    let st = scan_items(root, 0, ignored, depth, scan_start(cache, messages)).1;
    lemma_size_sum_sorted(st.entries, crate::app::SortMode::Size);
}

/// No entry of a scan's listing has a name that the scan ignores.
pub proof fn lemma_scan_leaves_out_ignored(
    root: FsEntry,
    ignored: Seq<Seq<char>>,
    depth: Option<usize>,
    cache: Map<Seq<char>, u64>,
    messages: Seq<MessageView>,
)
    ensures
        ({
            let st = scan_items(root, 0, ignored, depth, scan_start(cache, messages)).1;
            let rows = crate::sorting::sorted_by(st.entries, crate::app::SortMode::Size);
            forall|k: int| 0 <= k < rows.len() ==> !ignored.contains(#[trigger] rows[k].name)
        }),
{
    broadcast use vstd::seq_lib::group_to_multiset_ensures;
    lemma_scan_rows(root, 0, ignored, depth, scan_start(cache, messages));
    let st = scan_items(root, 0, ignored, depth, scan_start(cache, messages)).1;
    let rows = crate::sorting::sorted_by(st.entries, crate::app::SortMode::Size);
    crate::sorting::lemma_sorted_by_permutes(st.entries, crate::app::SortMode::Size);
    assert forall|k: int| 0 <= k < rows.len() implies !ignored.contains(#[trigger] rows[k].name) by {
        assert(rows.contains(rows[k]));
        assert(rows.to_multiset().count(rows[k]) > 0);
        assert(st.entries.contains(rows[k]));
    }
}

/// With a depth limit of 1 only the top-level listing is read: every
/// directory in it is listed with size 0.
pub proof fn lemma_depth_one_lists_only_top(
    root: FsEntry,
    ignored: Seq<Seq<char>>,
    cache: Map<Seq<char>, u64>,
    messages: Seq<MessageView>,
)
    ensures
        ({
            let st = scan_items(root, 0, ignored, Some(1usize), scan_start(cache, messages)).1;
            forall|k: int| 0 <= k < st.entries.len() && (#[trigger] st.entries[k]).is_dir ==> st.entries[k].size == 0
        }),
{
    lemma_scan_rows(root, 0, ignored, Some(1usize), scan_start(cache, messages));
}

/// A full-depth walk of a directory leaves its size in the cache, and a
/// second full-depth walk answers from there with the same size, counting
/// and reporting nothing.
pub proof fn lemma_walk_caches_its_result(dir: FsEntry, ignored: Seq<Seq<char>>, st: WalkState)
    ensures
        ({
            let (t, after) = walk_dir(dir, ignored, None, st);
            &&& after.cache.contains_key(dir.path@)
            &&& after.cache[dir.path@] == t
            &&& walk_dir(dir, ignored, None, after) == (t, after)
        }),
{
}

/// The cache gives back what was stored last for a path, forgets a removed
/// path, and leaves every other path as it was.
pub proof fn lemma_cache_read_after_write(m: Map<Seq<char>, u64>, path: Seq<char>, size: u64, other: Seq<char>)
    requires
        other != path,
    ensures
        m.insert(path, size).contains_key(path),
        m.insert(path, size)[path] == size,
        !m.remove(path).contains_key(path),
        m.insert(path, size).contains_key(other) == m.contains_key(other),
        m.remove(path).contains_key(other) == m.contains_key(other),
        m.contains_key(other) ==> m.insert(path, size)[other] == m[other] && m.remove(path)[other]
            == m[other],
{
}

/// A walk with no depth left counts nothing and sizes the directory at 0.
pub proof fn lemma_walk_depth_zero(dir: FsEntry, ignored: Seq<Seq<char>>, st: WalkState)
    ensures
        walk_dir(dir, ignored, Some(0usize), st) == (0u64, st),
{
}


// ── Deeper limits give larger sizes ──────────────────────────────────

proof fn lemma_sat_add_monotone(a1: u64, b1: u64, a2: u64, b2: u64)
    requires
        a1 <= a2,
        b1 <= b2,
    ensures
        sat_add(a1, b1) <= sat_add(a2, b2),
{
}

/// With depth limits `a <= b`, a directory's size under `a` is at most its
/// size under `b`, whatever the state of the two walks (a limited walk does
/// not use the cache).
pub proof fn lemma_walk_dir_depth_monotone(
    dir: FsEntry,
    ignored: Seq<Seq<char>>,
    a: usize,
    b: usize,
    st1: WalkState,
    st2: WalkState,
)
    requires
        a <= b,
    ensures
        walk_dir(dir, ignored, Some(a), st1).0 <= walk_dir(dir, ignored, Some(b), st2).0,
    decreases dir, items_of(dir).len() + 1,
{
    if a != 0 {
        lemma_walk_items_depth_monotone(dir, 0, ignored, a, b, 0, 0, st1, st2);
    }
}

proof fn lemma_walk_items_depth_monotone(
    dir: FsEntry,
    i: int,
    ignored: Seq<Seq<char>>,
    a: usize,
    b: usize,
    acc1: u64,
    acc2: u64,
    st1: WalkState,
    st2: WalkState,
)
    requires
        a <= b,
        acc1 <= acc2,
    ensures
        walk_items(dir, i, ignored, Some(a), acc1, st1).0 <= walk_items(dir, i, ignored, Some(b), acc2, st2).0,
    decreases dir, items_of(dir).len() - i,
{
    if 0 <= i < items_of(dir).len() {
        match items_of(dir)[i] {
            FsItem::Unreadable => {
                lemma_walk_items_depth_monotone(dir, i + 1, ignored, a, b, acc1, acc2, st1, st2);
            },
            FsItem::Present(e) => {
                let w1 = counted(st1, 50, dir.path@);
                let w2 = counted(st2, 50, dir.path@);
                if ignored.contains(e.name@) {
                    lemma_walk_items_depth_monotone(dir, i + 1, ignored, a, b, acc1, acc2, w1, w2);
                } else {
                    match e.meta {
                        None => {
                            lemma_walk_items_depth_monotone(dir, i + 1, ignored, a, b, acc1, acc2, w1, w2);
                        },
                        Some(m) => {
                            if m.is_file {
                                lemma_sat_add_monotone(acc1, m.len, acc2, m.len);
                                lemma_walk_items_depth_monotone(
                                    dir, i + 1, ignored, a, b, sat_add(acc1, m.len), sat_add(acc2, m.len), w1, w2,
                                );
                            } else if m.is_dir {
                                assert(decreases_to!(dir => e));
                                let da: usize = if a == 0 { 0 } else { (a - 1) as usize };
                                let db: usize = if b == 0 { 0 } else { (b - 1) as usize };
                                lemma_walk_dir_depth_monotone(e, ignored, da, db, w1, w2);
                                let r1 = walk_dir(e, ignored, deeper(Some(a)), w1);
                                let r2 = walk_dir(e, ignored, deeper(Some(b)), w2);
                                lemma_sat_add_monotone(acc1, r1.0, acc2, r2.0);
                                lemma_walk_items_depth_monotone(
                                    dir, i + 1, ignored, a, b, sat_add(acc1, r1.0), sat_add(acc2, r2.0), r1.1, r2.1,
                                );
                            } else {
                                lemma_walk_items_depth_monotone(dir, i + 1, ignored, a, b, acc1, acc2, w1, w2);
                            }
                        },
                    }
                }
            },
        }
    }
}

/// `x` and `y` list the same entries in the same order, each at most as
/// large in `x` as in `y`.
pub open spec fn rows_at_most(x: Seq<FileEntryView>, y: Seq<FileEntryView>) -> bool {
    &&& x.len() == y.len()
    &&& forall|k: int|
        0 <= k < x.len() ==> {
            &&& (#[trigger] x[k]).name == y[k].name
            &&& x[k].path == y[k].path
            &&& x[k].is_dir == y[k].is_dir
            &&& x[k].modified == y[k].modified
            &&& x[k].size <= y[k].size
        }
}

proof fn lemma_scan_items_depth_monotone(
    root: FsEntry,
    i: int,
    ignored: Seq<Seq<char>>,
    a: usize,
    b: usize,
    st1: ScanState,
    st2: ScanState,
)
    requires
        a <= b,
        rows_at_most(st1.entries, st2.entries),
        st1.total <= st2.total,
    ensures
        ({
            let r1 = scan_items(root, i, ignored, Some(a), st1);
            let r2 = scan_items(root, i, ignored, Some(b), st2);
            &&& r1.0 == r2.0
            &&& rows_at_most(r1.1.entries, r2.1.entries)
            &&& r1.1.total <= r2.1.total
        }),
    decreases items_of(root).len() - i,
{
    if 0 <= i < items_of(root).len() {
        match items_of(root)[i] {
            FsItem::Unreadable => {},
            FsItem::Present(e) => match e.meta {
                None => {
                    lemma_scan_items_depth_monotone(root, i + 1, ignored, a, b, st1, st2);
                },
                Some(m) => {
                    if ignored.contains(e.name@) {
                        lemma_scan_items_depth_monotone(root, i + 1, ignored, a, b, st1, st2);
                    } else {
                        let w1 = counted(st1.walk, 10, e.path@);
                        let w2 = counted(st2.walk, 10, e.path@);
                        let r1 = if m.is_dir { walk_dir(e, ignored, deeper(Some(a)), w1) } else { (m.len, w1) };
                        let r2 = if m.is_dir { walk_dir(e, ignored, deeper(Some(b)), w2) } else { (m.len, w2) };
                        if m.is_dir {
                            let da: usize = if a == 0 { 0 } else { (a - 1) as usize };
                            let db: usize = if b == 0 { 0 } else { (b - 1) as usize };
                            lemma_walk_dir_depth_monotone(e, ignored, da, db, w1, w2);
                        }
                        let row1 = FileEntryView { name: e.name@, path: e.path@, size: r1.0, is_dir: m.is_dir, modified: m.modified };
                        let row2 = FileEntryView { name: e.name@, path: e.path@, size: r2.0, is_dir: m.is_dir, modified: m.modified };
                        let n1 = ScanState { walk: r1.1, entries: st1.entries.push(row1), total: sat_add(st1.total, r1.0) };
                        let n2 = ScanState { walk: r2.1, entries: st2.entries.push(row2), total: sat_add(st2.total, r2.0) };
                        lemma_sat_add_monotone(st1.total, r1.0, st2.total, r2.0);
                        assert(rows_at_most(n1.entries, n2.entries)) by {
                            assert forall|k: int| 0 <= k < n1.entries.len() implies {
                                &&& (#[trigger] n1.entries[k]).name == n2.entries[k].name
                                &&& n1.entries[k].path == n2.entries[k].path
                                &&& n1.entries[k].is_dir == n2.entries[k].is_dir
                                &&& n1.entries[k].modified == n2.entries[k].modified
                                &&& n1.entries[k].size <= n2.entries[k].size
                            } by {
                                if k < st1.entries.len() {
                                    assert(n1.entries[k] == st1.entries[k]);
                                    assert(n2.entries[k] == st2.entries[k]);
                                }
                            }
                        }
                        lemma_scan_items_depth_monotone(root, i + 1, ignored, a, b, n1, n2);
                    }
                },
            },
        }
    }
}

/// Scanning the same directory with depth limits `a <= b` succeeds or fails
/// alike, lists the same entries in the same (listing) order, each at most
/// as large under `a` as under `b`, and a total at most as large; the
/// caches and messages the two scans start from do not matter.
pub proof fn lemma_scan_depth_monotone(
    root: FsEntry,
    ignored: Seq<Seq<char>>,
    a: usize,
    b: usize,
    cache1: Map<Seq<char>, u64>,
    messages1: Seq<MessageView>,
    cache2: Map<Seq<char>, u64>,
    messages2: Seq<MessageView>,
)
    requires
        a <= b,
    ensures
        ({
            let r1 = scan_items(root, 0, ignored, Some(a), scan_start(cache1, messages1));
            let r2 = scan_items(root, 0, ignored, Some(b), scan_start(cache2, messages2));
            &&& r1.0 == r2.0
            &&& rows_at_most(r1.1.entries, r2.1.entries)
            &&& r1.1.total <= r2.1.total
        }),
{
    lemma_scan_items_depth_monotone(
        root,
        0,
        ignored,
        a,
        b,
        scan_start(cache1, messages1),
        scan_start(cache2, messages2),
    );
}


// ── An unlimited scan gives the largest sizes ────────────────────────

/// The size of directory `dir` with no depth limit and no cache.
pub open spec fn dir_total(dir: FsEntry, ignored: Seq<Seq<char>>) -> u64
    decreases dir, items_of(dir).len() + 1,
{
    items_total(dir, 0, ignored, 0)
}

/// What the items of `dir` from the `i`-th on add to `acc`, with no depth
/// limit and no cache.
pub open spec fn items_total(dir: FsEntry, i: int, ignored: Seq<Seq<char>>, acc: u64) -> u64
    decreases dir, items_of(dir).len() - i,
{
    if i < 0 || i >= items_of(dir).len() {
        acc
    } else {
        match items_of(dir)[i] {
            FsItem::Unreadable => items_total(dir, i + 1, ignored, acc),
            FsItem::Present(e) => {
                if ignored.contains(e.name@) {
                    items_total(dir, i + 1, ignored, acc)
                } else {
                    match e.meta {
                        None => items_total(dir, i + 1, ignored, acc),
                        Some(m) => {
                            if m.is_file {
                                items_total(dir, i + 1, ignored, sat_add(acc, m.len))
                            } else if m.is_dir {
                                proof {
                                    assert(decreases_to!(dir => e));
                                }
                                items_total(dir, i + 1, ignored, sat_add(acc, dir_total(e, ignored)))
                            } else {
                                items_total(dir, i + 1, ignored, acc)
                            }
                        },
                    }
                }
            },
        }
    }
}

/// Entry `e` is a directory that a scan walks: it has metadata saying so
/// and its name is not ignored.
pub open spec fn walked(e: FsEntry, ignored: Seq<Seq<char>>) -> bool {
    &&& !ignored.contains(e.name@)
    &&& e.meta matches Some(m) && m.is_dir
}

/// `sizes` gives the size of `dir` and of every directory walked below it,
/// by path: a path names one directory.
pub open spec fn dir_agrees(dir: FsEntry, ignored: Seq<Seq<char>>, sizes: Map<Seq<char>, u64>) -> bool
    decreases dir, items_of(dir).len() + 1,
{
    &&& sizes.contains_key(dir.path@)
    &&& sizes[dir.path@] == dir_total(dir, ignored)
    &&& items_agree(dir, 0, ignored, sizes)
}

/// `sizes` gives the size of every directory walked among the items of
/// `dir` from the `i`-th on, and below them.
pub open spec fn items_agree(dir: FsEntry, i: int, ignored: Seq<Seq<char>>, sizes: Map<Seq<char>, u64>) -> bool
    decreases dir, items_of(dir).len() - i,
{
    if i < 0 || i >= items_of(dir).len() {
        true
    } else {
        &&& match items_of(dir)[i] {
            FsItem::Present(e) => {
                proof {
                    assert(decreases_to!(dir => e));
                }
                walked(e, ignored) ==> dir_agrees(e, ignored, sizes)
            },
            FsItem::Unreadable => true,
        }
        &&& items_agree(dir, i + 1, ignored, sizes)
    }
}

/// Every size held in `cache` for a path of `sizes` is the one `sizes`
/// gives.
pub open spec fn cache_agrees(cache: Map<Seq<char>, u64>, sizes: Map<Seq<char>, u64>) -> bool {
    forall|p: Seq<char>| #[trigger] cache.contains_key(p) && sizes.contains_key(p) ==> cache[p] == sizes[p]
}

proof fn lemma_walk_dir_unlimited(dir: FsEntry, ignored: Seq<Seq<char>>, sizes: Map<Seq<char>, u64>, st: WalkState)
    requires
        dir_agrees(dir, ignored, sizes),
        cache_agrees(st.cache, sizes),
    ensures
        walk_dir(dir, ignored, None, st).0 == dir_total(dir, ignored),
        cache_agrees(walk_dir(dir, ignored, None, st).1.cache, sizes),
    decreases dir, items_of(dir).len() + 1,
{
    if !st.cache.contains_key(dir.path@) {
        lemma_walk_items_unlimited(dir, 0, ignored, sizes, 0, st);
        let r = walk_items(dir, 0, ignored, None, 0, st);
        let c = r.1.cache.insert(dir.path@, r.0);
        assert forall|p: Seq<char>| #[trigger] c.contains_key(p) && sizes.contains_key(p) implies c[p] == sizes[p] by {
            if p != dir.path@ {
                assert(r.1.cache.contains_key(p));
            }
        }
    }
}

proof fn lemma_walk_items_unlimited(
    dir: FsEntry,
    i: int,
    ignored: Seq<Seq<char>>,
    sizes: Map<Seq<char>, u64>,
    acc: u64,
    st: WalkState,
)
    requires
        items_agree(dir, i, ignored, sizes),
        cache_agrees(st.cache, sizes),
    ensures
        walk_items(dir, i, ignored, None, acc, st).0 == items_total(dir, i, ignored, acc),
        cache_agrees(walk_items(dir, i, ignored, None, acc, st).1.cache, sizes),
    decreases dir, items_of(dir).len() - i,
{
    if 0 <= i < items_of(dir).len() {
        match items_of(dir)[i] {
            FsItem::Unreadable => {
                lemma_walk_items_unlimited(dir, i + 1, ignored, sizes, acc, st);
            },
            FsItem::Present(e) => {
                let st1 = counted(st, 50, dir.path@);
                if ignored.contains(e.name@) {
                    lemma_walk_items_unlimited(dir, i + 1, ignored, sizes, acc, st1);
                } else {
                    match e.meta {
                        None => {
                            lemma_walk_items_unlimited(dir, i + 1, ignored, sizes, acc, st1);
                        },
                        Some(m) => {
                            if m.is_file {
                                lemma_walk_items_unlimited(dir, i + 1, ignored, sizes, sat_add(acc, m.len), st1);
                            } else if m.is_dir {
                                assert(decreases_to!(dir => e));
                                lemma_walk_dir_unlimited(e, ignored, sizes, st1);
                                let r = walk_dir(e, ignored, None, st1);
                                lemma_walk_items_unlimited(dir, i + 1, ignored, sizes, sat_add(acc, r.0), r.1);
                            } else {
                                lemma_walk_items_unlimited(dir, i + 1, ignored, sizes, acc, st1);
                            }
                        },
                    }
                }
            },
        }
    }
}

proof fn lemma_walk_dir_below_total(dir: FsEntry, ignored: Seq<Seq<char>>, a: usize, st: WalkState)
    ensures
        walk_dir(dir, ignored, Some(a), st).0 <= dir_total(dir, ignored),
    decreases dir, items_of(dir).len() + 1,
{
    if a != 0 {
        lemma_walk_items_below_total(dir, 0, ignored, a, 0, 0, st);
    }
}

proof fn lemma_walk_items_below_total(
    dir: FsEntry,
    i: int,
    ignored: Seq<Seq<char>>,
    a: usize,
    acc1: u64,
    acc2: u64,
    st: WalkState,
)
    requires
        acc1 <= acc2,
    ensures
        walk_items(dir, i, ignored, Some(a), acc1, st).0 <= items_total(dir, i, ignored, acc2),
    decreases dir, items_of(dir).len() - i,
{
    if 0 <= i < items_of(dir).len() {
        match items_of(dir)[i] {
            FsItem::Unreadable => {
                lemma_walk_items_below_total(dir, i + 1, ignored, a, acc1, acc2, st);
            },
            FsItem::Present(e) => {
                let st1 = counted(st, 50, dir.path@);
                if ignored.contains(e.name@) {
                    lemma_walk_items_below_total(dir, i + 1, ignored, a, acc1, acc2, st1);
                } else {
                    match e.meta {
                        None => {
                            lemma_walk_items_below_total(dir, i + 1, ignored, a, acc1, acc2, st1);
                        },
                        Some(m) => {
                            if m.is_file {
                                lemma_sat_add_monotone(acc1, m.len, acc2, m.len);
                                lemma_walk_items_below_total(
                                    dir, i + 1, ignored, a, sat_add(acc1, m.len), sat_add(acc2, m.len), st1,
                                );
                            } else if m.is_dir {
                                assert(decreases_to!(dir => e));
                                let da: usize = if a == 0 { 0 } else { (a - 1) as usize };
                                lemma_walk_dir_below_total(e, ignored, da, st1);
                                let r = walk_dir(e, ignored, deeper(Some(a)), st1);
                                let t = dir_total(e, ignored);
                                lemma_sat_add_monotone(acc1, r.0, acc2, t);
                                lemma_walk_items_below_total(dir, i + 1, ignored, a, sat_add(acc1, r.0), sat_add(acc2, t), r.1);
                            } else {
                                lemma_walk_items_below_total(dir, i + 1, ignored, a, acc1, acc2, st1);
                            }
                        },
                    }
                }
            },
        }
    }
}

proof fn lemma_scan_items_below_unlimited(
    root: FsEntry,
    i: int,
    ignored: Seq<Seq<char>>,
    a: usize,
    sizes: Map<Seq<char>, u64>,
    st1: ScanState,
    st2: ScanState,
)
    requires
        items_agree(root, i, ignored, sizes),
        cache_agrees(st2.walk.cache, sizes),
        rows_at_most(st1.entries, st2.entries),
        st1.total <= st2.total,
    ensures
        ({
            let r1 = scan_items(root, i, ignored, Some(a), st1);
            let r2 = scan_items(root, i, ignored, None, st2);
            &&& r1.0 == r2.0
            &&& rows_at_most(r1.1.entries, r2.1.entries)
            &&& r1.1.total <= r2.1.total
        }),
    decreases items_of(root).len() - i,
{
    if 0 <= i < items_of(root).len() {
        match items_of(root)[i] {
            FsItem::Unreadable => {},
            FsItem::Present(e) => match e.meta {
                None => {
                    lemma_scan_items_below_unlimited(root, i + 1, ignored, a, sizes, st1, st2);
                },
                Some(m) => {
                    if ignored.contains(e.name@) {
                        lemma_scan_items_below_unlimited(root, i + 1, ignored, a, sizes, st1, st2);
                    } else {
                        let w1 = counted(st1.walk, 10, e.path@);
                        let w2 = counted(st2.walk, 10, e.path@);
                        let r1 = if m.is_dir { walk_dir(e, ignored, deeper(Some(a)), w1) } else { (m.len, w1) };
                        let r2 = if m.is_dir { walk_dir(e, ignored, None, w2) } else { (m.len, w2) };
                        if m.is_dir {
                            let da: usize = if a == 0 { 0 } else { (a - 1) as usize };
                            assert(walked(e, ignored));
                            lemma_walk_dir_below_total(e, ignored, da, w1);
                            lemma_walk_dir_unlimited(e, ignored, sizes, w2);
                        }
                        let row1 = FileEntryView { name: e.name@, path: e.path@, size: r1.0, is_dir: m.is_dir, modified: m.modified };
                        let row2 = FileEntryView { name: e.name@, path: e.path@, size: r2.0, is_dir: m.is_dir, modified: m.modified };
                        let n1 = ScanState { walk: r1.1, entries: st1.entries.push(row1), total: sat_add(st1.total, r1.0) };
                        let n2 = ScanState { walk: r2.1, entries: st2.entries.push(row2), total: sat_add(st2.total, r2.0) };
                        lemma_sat_add_monotone(st1.total, r1.0, st2.total, r2.0);
                        assert(rows_at_most(n1.entries, n2.entries)) by {
                            assert forall|k: int| 0 <= k < n1.entries.len() implies {
                                &&& (#[trigger] n1.entries[k]).name == n2.entries[k].name
                                &&& n1.entries[k].path == n2.entries[k].path
                                &&& n1.entries[k].is_dir == n2.entries[k].is_dir
                                &&& n1.entries[k].modified == n2.entries[k].modified
                                &&& n1.entries[k].size <= n2.entries[k].size
                            } by {
                                if k < st1.entries.len() {
                                    assert(n1.entries[k] == st1.entries[k]);
                                    assert(n2.entries[k] == st2.entries[k]);
                                }
                            }
                        }
                        lemma_scan_items_below_unlimited(root, i + 1, ignored, a, sizes, n1, n2);
                    }
                },
            },
        }
    }
}

/// A scan with any depth limit succeeds or fails as a scan without one
/// does, lists the same entries in the same (listing) order, each at most as
/// large as without the limit, and a total at most as large. This holds
/// where a path names one directory (`sizes` gives, by path, the unlimited
/// size of every directory the scan walks) and the unlimited scan starts
/// from a cache that holds no other sizes for those paths (an empty one,
/// say); the limited scan does not use its cache.
pub proof fn lemma_scan_limit_below_unlimited(
    root: FsEntry,
    ignored: Seq<Seq<char>>,
    a: usize,
    sizes: Map<Seq<char>, u64>,
    cache1: Map<Seq<char>, u64>,
    messages1: Seq<MessageView>,
    cache2: Map<Seq<char>, u64>,
    messages2: Seq<MessageView>,
)
    requires
        items_agree(root, 0, ignored, sizes),
        cache_agrees(cache2, sizes),
    ensures
        ({
            let r1 = scan_items(root, 0, ignored, Some(a), scan_start(cache1, messages1));
            let r2 = scan_items(root, 0, ignored, None, scan_start(cache2, messages2));
            &&& r1.0 == r2.0
            &&& rows_at_most(r1.1.entries, r2.1.entries)
            &&& r1.1.total <= r2.1.total
        }),
{
    lemma_scan_items_below_unlimited(
        root,
        0,
        ignored,
        a,
        sizes,
        scan_start(cache1, messages1),
        scan_start(cache2, messages2),
    );
}


// ── The same laws for the listings as returned, largest first ─────────

/// `a` and `b` are rows of the same entry: same name, path, kind and time.
pub open spec fn same_row(a: FileEntryView, b: FileEntryView) -> bool {
    &&& a.name == b.name
    &&& a.path == b.path
    &&& a.is_dir == b.is_dir
    &&& a.modified == b.modified
}

/// `x` and `y` are as long, and each row of either has a row of the same
/// entry in the other, at most as large in `x` as in `y`.
pub open spec fn listing_at_most(x: Seq<FileEntryView>, y: Seq<FileEntryView>) -> bool {
    &&& x.len() == y.len()
    &&& forall|k: int|
        0 <= k < x.len() ==> exists|j: int|
            0 <= j < y.len() && same_row(#[trigger] x[k], #[trigger] y[j]) && x[k].size <= y[j].size
    &&& forall|j: int|
        0 <= j < y.len() ==> exists|k: int|
            0 <= k < x.len() && same_row(#[trigger] x[k], #[trigger] y[j]) && x[k].size <= y[j].size
}

proof fn lemma_sorted_listing_at_most(x: Seq<FileEntryView>, y: Seq<FileEntryView>)
    requires
        rows_at_most(x, y),
    ensures
        listing_at_most(
            crate::sorting::sorted_by(x, crate::app::SortMode::Size),
            crate::sorting::sorted_by(y, crate::app::SortMode::Size),
        ),
{
    broadcast use vstd::seq_lib::group_to_multiset_ensures;
    let mode = crate::app::SortMode::Size;
    let sx = crate::sorting::sorted_by(x, mode);
    let sy = crate::sorting::sorted_by(y, mode);
    crate::sorting::lemma_sorted_by_permutes(x, mode);
    crate::sorting::lemma_sorted_by_permutes(y, mode);
    crate::sorting::lemma_sorted_by_is_sorted(x, mode);
    crate::sorting::lemma_sorted_by_is_sorted(y, mode);
    assert forall|k: int| 0 <= k < sx.len() implies exists|j: int|
        0 <= j < sy.len() && same_row(#[trigger] sx[k], #[trigger] sy[j]) && sx[k].size <= sy[j].size by {
        assert(sx.to_multiset().count(sx[k]) > 0);
        assert(x.contains(sx[k]));
        let i = choose|i: int| 0 <= i < x.len() && x[i] == sx[k];
        assert(y.to_multiset().count(y[i]) > 0);
        assert(sy.contains(y[i]));
        let j = choose|j: int| 0 <= j < sy.len() && sy[j] == y[i];
        assert(same_row(sx[k], sy[j]) && sx[k].size <= sy[j].size);
    }
    assert forall|j: int| 0 <= j < sy.len() implies exists|k: int|
        0 <= k < sx.len() && same_row(#[trigger] sx[k], #[trigger] sy[j]) && sx[k].size <= sy[j].size by {
        assert(sy.to_multiset().count(sy[j]) > 0);
        assert(y.contains(sy[j]));
        let i = choose|i: int| 0 <= i < y.len() && y[i] == sy[j];
        assert(x.to_multiset().count(x[i]) > 0);
        assert(sx.contains(x[i]));
        let k = choose|k: int| 0 <= k < sx.len() && sx[k] == x[i];
        assert(same_row(sx[k], sy[j]) && sx[k].size <= sy[j].size);
    }
}

/// The listings, largest first, that scans of the same directory with
/// depth limits `a <= b` return hold the same entries, each at most as
/// large under `a` as under `b`, and the totals are in the same order; the
/// scans succeed or fail alike, whatever caches and messages they start
/// from.
pub proof fn lemma_listing_depth_monotone(
    root: FsEntry,
    ignored: Seq<Seq<char>>,
    a: usize,
    b: usize,
    cache1: Map<Seq<char>, u64>,
    messages1: Seq<MessageView>,
    cache2: Map<Seq<char>, u64>,
    messages2: Seq<MessageView>,
)
    requires
        a <= b,
    ensures
        ({
            let r1 = scan_items(root, 0, ignored, Some(a), scan_start(cache1, messages1));
            let r2 = scan_items(root, 0, ignored, Some(b), scan_start(cache2, messages2));
            &&& r1.0 == r2.0
            &&& listing_at_most(
                crate::sorting::sorted_by(r1.1.entries, crate::app::SortMode::Size),
                crate::sorting::sorted_by(r2.1.entries, crate::app::SortMode::Size),
            )
            &&& r1.1.total <= r2.1.total
        }),
{
    lemma_scan_depth_monotone(root, ignored, a, b, cache1, messages1, cache2, messages2);
    lemma_sorted_listing_at_most(
        scan_items(root, 0, ignored, Some(a), scan_start(cache1, messages1)).1.entries,
        scan_items(root, 0, ignored, Some(b), scan_start(cache2, messages2)).1.entries,
    );
}

/// The listing, largest first, that a scan with a depth limit returns holds
/// the same entries as that of a scan without one, each at most as large,
/// and a total at most as large; the scans succeed or fail alike. This holds
/// where a path names one directory (`sizes` gives, by path, the unlimited
/// size of every directory walked) and the unlimited scan starts from a
/// cache that holds no other sizes for those paths, an empty one say.
pub proof fn lemma_listing_below_unlimited(
    root: FsEntry,
    ignored: Seq<Seq<char>>,
    a: usize,
    sizes: Map<Seq<char>, u64>,
    cache1: Map<Seq<char>, u64>,
    messages1: Seq<MessageView>,
    cache2: Map<Seq<char>, u64>,
    messages2: Seq<MessageView>,
)
    requires
        items_agree(root, 0, ignored, sizes),
        cache_agrees(cache2, sizes),
    ensures
        ({
            let r1 = scan_items(root, 0, ignored, Some(a), scan_start(cache1, messages1));
            let r2 = scan_items(root, 0, ignored, None, scan_start(cache2, messages2));
            &&& r1.0 == r2.0
            &&& listing_at_most(
                crate::sorting::sorted_by(r1.1.entries, crate::app::SortMode::Size),
                crate::sorting::sorted_by(r2.1.entries, crate::app::SortMode::Size),
            )
            &&& r1.1.total <= r2.1.total
        }),
{
    lemma_scan_limit_below_unlimited(root, ignored, a, sizes, cache1, messages1, cache2, messages2);
    lemma_sorted_listing_at_most(
        scan_items(root, 0, ignored, Some(a), scan_start(cache1, messages1)).1.entries,
        scan_items(root, 0, ignored, None, scan_start(cache2, messages2)).1.entries,
    );
}


// ── Where no two directories share a path ────────────────────────────

/// The paths of `dir` and of the directories walked below it, in walk
/// order.
pub open spec fn walked_paths(dir: FsEntry, ignored: Seq<Seq<char>>) -> Seq<Seq<char>>
    decreases dir, items_of(dir).len() + 1,
{
    seq![dir.path@] + walked_paths_from(dir, 0, ignored)
}

/// The paths of the directories walked among the items of `dir` from the
/// `i`-th on, and below them, in walk order.
pub open spec fn walked_paths_from(dir: FsEntry, i: int, ignored: Seq<Seq<char>>) -> Seq<Seq<char>>
    decreases dir, items_of(dir).len() - i,
{
    if i < 0 || i >= items_of(dir).len() {
        Seq::empty()
    } else {
        let here = match items_of(dir)[i] {
            FsItem::Present(e) => {
                proof {
                    assert(decreases_to!(dir => e));
                }
                if walked(e, ignored) {
                    walked_paths(e, ignored)
                } else {
                    Seq::empty()
                }
            },
            FsItem::Unreadable => Seq::empty(),
        };
        here + walked_paths_from(dir, i + 1, ignored)
    }
}

proof fn lemma_no_dup_concat(a: Seq<Seq<char>>, b: Seq<Seq<char>>)
    requires
        (a + b).no_duplicates(),
    ensures
        a.no_duplicates(),
        b.no_duplicates(),
        forall|p: Seq<char>| a.contains(p) ==> !b.contains(p),
{
    let c = a + b;
    assert forall|i: int, j: int| 0 <= i < a.len() && 0 <= j < a.len() && i != j implies a[i] != a[j] by {
        assert(c[i] == a[i] && c[j] == a[j]);
    }
    assert forall|i: int, j: int| 0 <= i < b.len() && 0 <= j < b.len() && i != j implies b[i] != b[j] by {
        assert(c[a.len() + i] == b[i] && c[a.len() + j] == b[j]);
    }
    assert forall|p: Seq<char>| a.contains(p) implies !b.contains(p) by {
        let i = choose|i: int| 0 <= i < a.len() && a[i] == p;
        if b.contains(p) {
            let j = choose|j: int| 0 <= j < b.len() && b[j] == p;
            assert(c[i] == c[a.len() + j]);
        }
    }
}

proof fn lemma_contains_concat(a: Seq<Seq<char>>, b: Seq<Seq<char>>, p: Seq<char>)
    ensures
        (a + b).contains(p) <==> (a.contains(p) || b.contains(p)),
{
    let c = a + b;
    if a.contains(p) {
        let i = choose|i: int| 0 <= i < a.len() && a[i] == p;
        assert(c[i] == p);
    }
    if b.contains(p) {
        let j = choose|j: int| 0 <= j < b.len() && b[j] == p;
        assert(c[a.len() + j] == p);
    }
    if c.contains(p) {
        let k = choose|k: int| 0 <= k < c.len() && c[k] == p;
        if k < a.len() {
            assert(a[k] == p);
        } else {
            assert(b[k - a.len()] == p);
        }
    }
}

/// No path of `paths` is in the domain of `cache`.
pub open spec fn cache_avoids(cache: Map<Seq<char>, u64>, paths: Seq<Seq<char>>) -> bool {
    forall|p: Seq<char>| #[trigger] paths.contains(p) ==> !cache.contains_key(p)
}

/// Every path in the domain of `after` is in `before` or among `paths`.
pub open spec fn cache_grows_by(before: Map<Seq<char>, u64>, after: Map<Seq<char>, u64>, paths: Seq<Seq<char>>) -> bool {
    forall|p: Seq<char>| #[trigger] after.contains_key(p) ==> before.contains_key(p) || paths.contains(p)
}

proof fn lemma_walk_dir_fresh(dir: FsEntry, ignored: Seq<Seq<char>>, st: WalkState)
    requires
        walked_paths(dir, ignored).no_duplicates(),
        cache_avoids(st.cache, walked_paths(dir, ignored)),
    ensures
        walk_dir(dir, ignored, None, st).0 == dir_total(dir, ignored),
        cache_grows_by(st.cache, walk_dir(dir, ignored, None, st).1.cache, walked_paths(dir, ignored)),
    decreases dir, items_of(dir).len() + 1,
{
    let head = seq![dir.path@];
    let rest = walked_paths_from(dir, 0, ignored);
    lemma_no_dup_concat(head, rest);
    assert(head.contains(dir.path@)) by {
        assert(head[0] == dir.path@);
    }
    lemma_contains_concat(head, rest, dir.path@);
    assert(!st.cache.contains_key(dir.path@));
    assert forall|p: Seq<char>| #[trigger] rest.contains(p) implies !st.cache.contains_key(p) by {
        lemma_contains_concat(head, rest, p);
    }
    lemma_walk_items_fresh(dir, 0, ignored, 0, st);
    let r = walk_items(dir, 0, ignored, None, 0, st);
    let c = r.1.cache.insert(dir.path@, r.0);
    assert forall|p: Seq<char>| #[trigger] c.contains_key(p) implies st.cache.contains_key(p)
        || walked_paths(dir, ignored).contains(p) by {
        lemma_contains_concat(head, rest, p);
        if p != dir.path@ {
            assert(r.1.cache.contains_key(p));
        }
    }
}

proof fn lemma_walk_items_fresh(dir: FsEntry, i: int, ignored: Seq<Seq<char>>, acc: u64, st: WalkState)
    requires
        walked_paths_from(dir, i, ignored).no_duplicates(),
        cache_avoids(st.cache, walked_paths_from(dir, i, ignored)),
    ensures
        walk_items(dir, i, ignored, None, acc, st).0 == items_total(dir, i, ignored, acc),
        cache_grows_by(st.cache, walk_items(dir, i, ignored, None, acc, st).1.cache, walked_paths_from(dir, i, ignored)),
    decreases dir, items_of(dir).len() - i,
{
    if 0 <= i < items_of(dir).len() {
        let all = walked_paths_from(dir, i, ignored);
        let rest = walked_paths_from(dir, i + 1, ignored);
        let here = match items_of(dir)[i] {
            FsItem::Present(e) => if walked(e, ignored) {
                walked_paths(e, ignored)
            } else {
                Seq::empty()
            },
            FsItem::Unreadable => Seq::empty(),
        };
        assert(all == here + rest);
        lemma_no_dup_concat(here, rest);
        assert forall|p: Seq<char>| #[trigger] rest.contains(p) implies !st.cache.contains_key(p) by {
            lemma_contains_concat(here, rest, p);
        }
        assert forall|p: Seq<char>| #[trigger] here.contains(p) implies !st.cache.contains_key(p) by {
            lemma_contains_concat(here, rest, p);
        }
        let st1 = counted(st, 50, dir.path@);
        match items_of(dir)[i] {
            FsItem::Unreadable => {
                lemma_walk_items_fresh(dir, i + 1, ignored, acc, st);
                let r = walk_items(dir, i + 1, ignored, None, acc, st);
                assert forall|p: Seq<char>| #[trigger] r.1.cache.contains_key(p) implies st.cache.contains_key(p)
                    || all.contains(p) by {
                    lemma_contains_concat(here, rest, p);
                }
            },
            FsItem::Present(e) => {
                let next_acc: u64;
                let mid: WalkState;
                if ignored.contains(e.name@) {
                    next_acc = acc;
                    mid = st1;
                } else {
                    match e.meta {
                        None => {
                            next_acc = acc;
                            mid = st1;
                        },
                        Some(m) => {
                            if m.is_file {
                                next_acc = sat_add(acc, m.len);
                                mid = st1;
                            } else if m.is_dir {
                                assert(decreases_to!(dir => e));
                                assert(here == walked_paths(e, ignored));
                                lemma_walk_dir_fresh(e, ignored, st1);
                                let r = walk_dir(e, ignored, None, st1);
                                next_acc = sat_add(acc, r.0);
                                mid = r.1;
                            } else {
                                next_acc = acc;
                                mid = st1;
                            }
                        },
                    }
                }
                assert(cache_grows_by(st.cache, mid.cache, here));
                assert forall|p: Seq<char>| #[trigger] rest.contains(p) implies !mid.cache.contains_key(p) by {
                    if mid.cache.contains_key(p) {
                        if here.contains(p) {
                        }
                    }
                }
                assert(walk_items(dir, i, ignored, None, acc, st) == walk_items(dir, i + 1, ignored, None, next_acc, mid));
                assert(items_total(dir, i, ignored, acc) == items_total(dir, i + 1, ignored, next_acc));
                lemma_walk_items_fresh(dir, i + 1, ignored, next_acc, mid);
                let r = walk_items(dir, i + 1, ignored, None, next_acc, mid);
                assert forall|p: Seq<char>| #[trigger] r.1.cache.contains_key(p) implies st.cache.contains_key(p)
                    || all.contains(p) by {
                    lemma_contains_concat(here, rest, p);
                    if !rest.contains(p) {
                        assert(mid.cache.contains_key(p));
                    }
                }
            },
        }
    }
}


proof fn lemma_rows_push(x: Seq<FileEntryView>, y: Seq<FileEntryView>, a: FileEntryView, b: FileEntryView)
    requires
        rows_at_most(x, y),
        same_row(a, b),
        a.size <= b.size,
    ensures
        rows_at_most(x.push(a), y.push(b)),
{
    let xs = x.push(a);
    let ys = y.push(b);
    assert forall|k: int| 0 <= k < xs.len() implies {
        &&& (#[trigger] xs[k]).name == ys[k].name
        &&& xs[k].path == ys[k].path
        &&& xs[k].is_dir == ys[k].is_dir
        &&& xs[k].modified == ys[k].modified
        &&& xs[k].size <= ys[k].size
    } by {
        if k < x.len() {
            assert(xs[k] == x[k]);
            assert(ys[k] == y[k]);
        }
    }
}

proof fn lemma_scan_items_below_fresh(
    root: FsEntry,
    i: int,
    ignored: Seq<Seq<char>>,
    a: usize,
    st1: ScanState,
    st2: ScanState,
)
    requires
        walked_paths_from(root, i, ignored).no_duplicates(),
        cache_avoids(st2.walk.cache, walked_paths_from(root, i, ignored)),
        rows_at_most(st1.entries, st2.entries),
        st1.total <= st2.total,
    ensures
        ({
            let r1 = scan_items(root, i, ignored, Some(a), st1);
            let r2 = scan_items(root, i, ignored, None, st2);
            &&& r1.0 == r2.0
            &&& rows_at_most(r1.1.entries, r2.1.entries)
            &&& r1.1.total <= r2.1.total
        }),
    decreases items_of(root).len() - i,
{
    if 0 <= i < items_of(root).len() {
        let rest = walked_paths_from(root, i + 1, ignored);
        let here = match items_of(root)[i] {
            FsItem::Present(e) => if walked(e, ignored) {
                walked_paths(e, ignored)
            } else {
                Seq::empty()
            },
            FsItem::Unreadable => Seq::empty(),
        };
        assert(walked_paths_from(root, i, ignored) == here + rest);
        lemma_no_dup_concat(here, rest);
        assert forall|p: Seq<char>| #[trigger] rest.contains(p) implies !st2.walk.cache.contains_key(p) by {
            lemma_contains_concat(here, rest, p);
        }
        assert forall|p: Seq<char>| #[trigger] here.contains(p) implies !st2.walk.cache.contains_key(p) by {
            lemma_contains_concat(here, rest, p);
        }
        match items_of(root)[i] {
            FsItem::Unreadable => {},
            FsItem::Present(e) => match e.meta {
                None => {
                    lemma_scan_items_below_fresh(root, i + 1, ignored, a, st1, st2);
                },
                Some(m) => {
                    if ignored.contains(e.name@) {
                        lemma_scan_items_below_fresh(root, i + 1, ignored, a, st1, st2);
                    } else {
                        let w1 = counted(st1.walk, 10, e.path@);
                        let w2 = counted(st2.walk, 10, e.path@);
                        let r1 = if m.is_dir { walk_dir(e, ignored, deeper(Some(a)), w1) } else { (m.len, w1) };
                        let r2 = if m.is_dir { walk_dir(e, ignored, None, w2) } else { (m.len, w2) };
                        if m.is_dir {
                            let da: usize = if a == 0 { 0 } else { (a - 1) as usize };
                            assert(here == walked_paths(e, ignored));
                            lemma_walk_dir_below_total(e, ignored, da, w1);
                            lemma_walk_dir_fresh(e, ignored, w2);
                        }
                        assert(cache_grows_by(st2.walk.cache, r2.1.cache, here));
                        assert forall|p: Seq<char>| #[trigger] rest.contains(p) implies !r2.1.cache.contains_key(p) by {
                            if r2.1.cache.contains_key(p) {
                                if here.contains(p) {
                                }
                            }
                        }
                        let row1 = FileEntryView { name: e.name@, path: e.path@, size: r1.0, is_dir: m.is_dir, modified: m.modified };
                        let row2 = FileEntryView { name: e.name@, path: e.path@, size: r2.0, is_dir: m.is_dir, modified: m.modified };
                        let n1 = ScanState { walk: r1.1, entries: st1.entries.push(row1), total: sat_add(st1.total, r1.0) };
                        let n2 = ScanState { walk: r2.1, entries: st2.entries.push(row2), total: sat_add(st2.total, r2.0) };
                        lemma_sat_add_monotone(st1.total, r1.0, st2.total, r2.0);
                        lemma_rows_push(st1.entries, st2.entries, row1, row2);
                        lemma_scan_items_below_fresh(root, i + 1, ignored, a, n1, n2);
                    }
                },
            },
        }
    }
}

/// Scans of one directory tree in which no two directories share a path
/// (as in a file system) with depth limits `a <= b` and with none, the
/// unlimited one from an empty cache, succeed or fail alike; their
/// listings, largest first, hold the same entries (same name, path, kind
/// and time), each at most as large under `a` as under `b`, and under `b`
/// as without a limit; the totals are in the same order.
pub proof fn lemma_listing_depth_chain(
    root: FsEntry,
    ignored: Seq<Seq<char>>,
    a: usize,
    b: usize,
    cache1: Map<Seq<char>, u64>,
    messages1: Seq<MessageView>,
    cache2: Map<Seq<char>, u64>,
    messages2: Seq<MessageView>,
    messages3: Seq<MessageView>,
)
    requires
        a <= b,
        walked_paths_from(root, 0, ignored).no_duplicates(),
    ensures
        ({
            let r1 = scan_items(root, 0, ignored, Some(a), scan_start(cache1, messages1));
            let r2 = scan_items(root, 0, ignored, Some(b), scan_start(cache2, messages2));
            let r3 = scan_items(root, 0, ignored, None, scan_start(Map::empty(), messages3));
            &&& r1.0 == r2.0 && r2.0 == r3.0
            &&& listing_at_most(
                crate::sorting::sorted_by(r1.1.entries, crate::app::SortMode::Size),
                crate::sorting::sorted_by(r2.1.entries, crate::app::SortMode::Size),
            )
            &&& listing_at_most(
                crate::sorting::sorted_by(r2.1.entries, crate::app::SortMode::Size),
                crate::sorting::sorted_by(r3.1.entries, crate::app::SortMode::Size),
            )
            &&& r1.1.total <= r2.1.total
            &&& r2.1.total <= r3.1.total
        }),
{
    lemma_listing_depth_monotone(root, ignored, a, b, cache1, messages1, cache2, messages2);
    let s2 = scan_start(cache2, messages2);
    let s3 = scan_start(Map::empty(), messages3);
    assert(cache_avoids(s3.walk.cache, walked_paths_from(root, 0, ignored)));
    assert(rows_at_most(s2.entries, s3.entries));
    lemma_scan_items_below_fresh(root, 0, ignored, b, s2, s3);
    lemma_sorted_listing_at_most(
        scan_items(root, 0, ignored, Some(b), s2).1.entries,
        scan_items(root, 0, ignored, None, s3).1.entries,
    );
}


// ── Every row of a listing is an item of the directory ───────────────

/// `row` is the row of the listed item `item`: an entry with metadata whose
/// name is not ignored, and the row has its name, its path, its kind and
/// its modification time.
pub open spec fn row_of_item(row: FileEntryView, item: FsItem, ignored: Seq<Seq<char>>) -> bool {
    &&& item matches FsItem::Present(e)
    &&& !ignored.contains(e.name@)
    &&& e.meta matches Some(m)
    &&& row.name == e.name@
    &&& row.path == e.path@
    &&& row.is_dir == m.is_dir
    &&& row.modified == m.modified
}

/// `item` is an entry with metadata whose name is not ignored: a scan
/// lists it.
pub open spec fn listable(item: FsItem, ignored: Seq<Seq<char>>) -> bool {
    &&& item matches FsItem::Present(e)
    &&& !ignored.contains(e.name@)
    &&& e.meta is Some
}

proof fn lemma_scan_rows_from_items(root: FsEntry, i: int, ignored: Seq<Seq<char>>, depth: Option<usize>, st: ScanState)
    requires
        0 <= i,
    ensures
        ({
            let r = scan_items(root, i, ignored, depth, st);
            &&& r.1.entries.len() >= st.entries.len()
            &&& forall|k: int| 0 <= k < st.entries.len() ==> #[trigger] r.1.entries[k] == st.entries[k]
            &&& forall|k: int|
                st.entries.len() <= k < r.1.entries.len() ==> exists|j: int|
                    i <= j < items_of(root).len() && row_of_item(#[trigger] r.1.entries[k], #[trigger] items_of(root)[j], ignored)
            &&& r.0 ==> forall|j: int|
                i <= j < items_of(root).len() && listable(#[trigger] items_of(root)[j], ignored) ==> exists|k: int|
                    st.entries.len() <= k < r.1.entries.len() && row_of_item(#[trigger] r.1.entries[k], items_of(root)[j], ignored)
        }),
    decreases items_of(root).len() - i,
{
    let r = scan_items(root, i, ignored, depth, st);
    if i < items_of(root).len() {
        let item = items_of(root)[i];
        let step = scan_step(item, ignored, depth, st);
        if step.0 {
            lemma_scan_rows_from_items(root, i + 1, ignored, depth, step.1);
            assert(r == scan_items(root, i + 1, ignored, depth, step.1));
            if step.1.entries.len() > st.entries.len() {
                // The item was listed: its row sits at the first new position.
                let k0 = st.entries.len() as int;
                assert(step.1.entries == st.entries.push(step.1.entries[k0]));
                assert(r.1.entries[k0] == step.1.entries[k0]);
                assert(row_of_item(r.1.entries[k0], item, ignored));
                assert forall|k: int| 0 <= k < st.entries.len() implies #[trigger] r.1.entries[k] == st.entries[k] by {
                    assert(r.1.entries[k] == step.1.entries[k]);
                }
                assert forall|k: int| st.entries.len() <= k < r.1.entries.len() implies exists|j: int|
                    i <= j < items_of(root).len() && row_of_item(#[trigger] r.1.entries[k], #[trigger] items_of(root)[j], ignored) by {
                    if k == k0 {
                        assert(row_of_item(r.1.entries[k], items_of(root)[i], ignored));
                    }
                }
                if r.0 {
                    assert forall|j: int| i <= j < items_of(root).len() && listable(#[trigger] items_of(root)[j], ignored) implies exists|k: int|
                        st.entries.len() <= k < r.1.entries.len() && row_of_item(#[trigger] r.1.entries[k], items_of(root)[j], ignored) by {
                        if j == i {
                            assert(row_of_item(r.1.entries[k0], items_of(root)[j], ignored));
                        }
                    }
                }
            } else {
                assert(step.1 == st);
                assert(!listable(item, ignored));
            }
        }
    }
}

/// Every row of the listing a scan returns (largest first) is the row of an
/// entry listed in the scanned directory, with that entry's name, path,
/// kind and modification time, and its name not ignored; and when the scan
/// succeeds, every such entry of the directory has a row.
pub proof fn lemma_listing_rows_are_items(
    root: FsEntry,
    ignored: Seq<Seq<char>>,
    depth: Option<usize>,
    cache: Map<Seq<char>, u64>,
    messages: Seq<MessageView>,
)
    ensures
        ({
            let r = scan_items(root, 0, ignored, depth, scan_start(cache, messages));
            let listing = crate::sorting::sorted_by(r.1.entries, crate::app::SortMode::Size);
            &&& forall|k: int|
                0 <= k < listing.len() ==> exists|j: int|
                    0 <= j < items_of(root).len() && row_of_item(#[trigger] listing[k], #[trigger] items_of(root)[j], ignored)
            &&& r.0 ==> forall|j: int|
                0 <= j < items_of(root).len() && listable(#[trigger] items_of(root)[j], ignored) ==> exists|k: int|
                    0 <= k < listing.len() && row_of_item(#[trigger] listing[k], items_of(root)[j], ignored)
        }),
{
    broadcast use vstd::seq_lib::group_to_multiset_ensures;
    let st = scan_start(cache, messages);
    let r = scan_items(root, 0, ignored, depth, st);
    let rows = r.1.entries;
    let mode = crate::app::SortMode::Size;
    let listing = crate::sorting::sorted_by(rows, mode);
    lemma_scan_rows_from_items(root, 0, ignored, depth, st);
    crate::sorting::lemma_sorted_by_permutes(rows, mode);
    crate::sorting::lemma_sorted_by_is_sorted(rows, mode);
    assert forall|k: int| 0 <= k < listing.len() implies exists|j: int|
        0 <= j < items_of(root).len() && row_of_item(#[trigger] listing[k], #[trigger] items_of(root)[j], ignored) by {
        assert(listing.to_multiset().count(listing[k]) > 0);
        assert(rows.contains(listing[k]));
        let i = choose|i: int| 0 <= i < rows.len() && rows[i] == listing[k];
        assert(exists|j: int| 0 <= j < items_of(root).len() && row_of_item(#[trigger] rows[i], #[trigger] items_of(root)[j], ignored));
    }
    if r.0 {
        assert forall|j: int| 0 <= j < items_of(root).len() && listable(#[trigger] items_of(root)[j], ignored) implies exists|k: int|
            0 <= k < listing.len() && row_of_item(#[trigger] listing[k], items_of(root)[j], ignored) by {
            let i = choose|i: int| 0 <= i < rows.len() && row_of_item(#[trigger] rows[i], items_of(root)[j], ignored);
            assert(rows.to_multiset().count(rows[i]) > 0);
            assert(listing.contains(rows[i]));
            let k = choose|k: int| 0 <= k < listing.len() && listing[k] == rows[i];
            assert(row_of_item(listing[k], items_of(root)[j], ignored));
        }
    }
}


// ── What a directory's size is made of ───────────────────────────────

/// The length of `item` when it is a file listed under a name that is not
/// ignored.
pub open spec fn listed_file_len(item: FsItem, ignored: Seq<Seq<char>>) -> Option<u64> {
    match item {
        FsItem::Present(e) => match e.meta {
            Some(m) => if !ignored.contains(e.name@) && m.is_file {
                Some(m.len)
            } else {
                None
            },
            None => None,
        },
        FsItem::Unreadable => None,
    }
}

/// `item` when it is a directory (and not a file) listed under a name that
/// is not ignored.
pub open spec fn listed_subdir(item: FsItem, ignored: Seq<Seq<char>>) -> Option<FsEntry> {
    match item {
        FsItem::Present(e) => match e.meta {
            Some(m) => if !ignored.contains(e.name@) && !m.is_file && m.is_dir {
                Some(e)
            } else {
                None
            },
            None => None,
        },
        FsItem::Unreadable => None,
    }
}

proof fn lemma_items_total_parts(dir: FsEntry, i: int, ignored: Seq<Seq<char>>, acc: u64)
    requires
        0 <= i,
    ensures
        items_total(dir, i, ignored, acc) >= acc,
        forall|j: int|
            i <= j < items_of(dir).len() && #[trigger] listed_file_len(items_of(dir)[j], ignored) is Some
                ==> items_total(dir, i, ignored, acc) >= listed_file_len(items_of(dir)[j], ignored).unwrap(),
        forall|j: int|
            i <= j < items_of(dir).len() && #[trigger] listed_subdir(items_of(dir)[j], ignored) is Some
                ==> items_total(dir, i, ignored, acc) >= dir_total(listed_subdir(items_of(dir)[j], ignored).unwrap(), ignored),
        (forall|j: int|
            i <= j < items_of(dir).len() ==> #[trigger] listed_file_len(items_of(dir)[j], ignored) is None
                && listed_subdir(items_of(dir)[j], ignored) is None) ==> items_total(dir, i, ignored, acc) == acc,
    decreases items_of(dir).len() - i,
{
    if i < items_of(dir).len() {
        let here_file = listed_file_len(items_of(dir)[i], ignored);
        let here_dir = listed_subdir(items_of(dir)[i], ignored);
        match items_of(dir)[i] {
            FsItem::Unreadable => {
                lemma_items_total_parts(dir, i + 1, ignored, acc);
            },
            FsItem::Present(e) => {
                if ignored.contains(e.name@) {
                    lemma_items_total_parts(dir, i + 1, ignored, acc);
                } else {
                    match e.meta {
                        None => {
                            lemma_items_total_parts(dir, i + 1, ignored, acc);
                        },
                        Some(m) => {
                            if m.is_file {
                                lemma_items_total_parts(dir, i + 1, ignored, sat_add(acc, m.len));
                            } else if m.is_dir {
                                assert(decreases_to!(dir => e));
                                lemma_items_total_parts(dir, i + 1, ignored, sat_add(acc, dir_total(e, ignored)));
                            } else {
                                lemma_items_total_parts(dir, i + 1, ignored, acc);
                            }
                        },
                    }
                }
            },
        }
    }
}

/// The full size of a directory is at least the length of each file it
/// lists and the full size of each subdirectory it lists (names not
/// ignored); it is 0 when it lists no such file or directory.
pub proof fn lemma_dir_total_parts(dir: FsEntry, ignored: Seq<Seq<char>>)
    ensures
        forall|j: int|
            0 <= j < items_of(dir).len() && #[trigger] listed_file_len(items_of(dir)[j], ignored) is Some
                ==> dir_total(dir, ignored) >= listed_file_len(items_of(dir)[j], ignored).unwrap(),
        forall|j: int|
            0 <= j < items_of(dir).len() && #[trigger] listed_subdir(items_of(dir)[j], ignored) is Some
                ==> dir_total(dir, ignored) >= dir_total(listed_subdir(items_of(dir)[j], ignored).unwrap(), ignored),
        (forall|j: int|
            0 <= j < items_of(dir).len() ==> #[trigger] listed_file_len(items_of(dir)[j], ignored) is None
                && listed_subdir(items_of(dir)[j], ignored) is None) ==> dir_total(dir, ignored) == 0,
{
    lemma_items_total_parts(dir, 0, ignored, 0);
}

} // verus!
