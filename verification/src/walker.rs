//! The walk of a directory: which entries give a resource, which are
//! skipped, and which directories are left out with all below them.

use vstd::prelude::*;
use vstd::string::StrSliceExecFns;
use vstd::string::StringExecFns;
use crate::models::{resource_views, ResourceItem, ResourceItemView};
use crate::paths::{
    file_type_of, get_file_type, has_ignored_segment, is_hidden, is_hidden_name, is_ignored_name, is_path_under,
    last_segment, last_segment_bounds, matches_any, path_has_ignored_segment, path_under,
};
use crate::text::{chars_of, lowercase, texts, to_lowercase, trim_run, trimmed};

verus! {

/// What kind of thing a directory entry is. A symbolic link is `Other`: the
/// walk does not follow it.
#[derive(Debug, Clone, Copy, PartialEq, Eq)]
pub enum EntryKind {
    Directory,
    File,
    Other,
}

/// An instant: whole seconds since 1970-01-01T00:00:00Z and the nanoseconds
/// past that second.
#[derive(Debug, Clone, Copy, PartialEq, Eq)]
pub struct Timestamp {
    pub secs: i64,
    pub nanos: u32,
}

/// What the file system tells of a file.
#[derive(Debug, Clone, Copy, PartialEq, Eq)]
pub struct FileMetadata {
    pub size: u64,
    /// `None` where the file system gave no modification time.
    pub modified: Option<Timestamp>,
}

/// One entry that a walk of a directory came upon. Its name is the last
/// segment of its path.
#[derive(Debug, PartialEq, Eq)]
pub struct WalkEntry {
    pub path: String,
    pub kind: EntryKind,
    /// `None` where the metadata could not be read.
    pub metadata: Option<FileMetadata>,
}

/// What a `WalkEntry` holds, its strings as texts.
pub struct WalkEntryView {
    pub path: Seq<char>,
    pub kind: EntryKind,
    pub metadata: Option<FileMetadata>,
}

impl View for WalkEntry {
    type V = WalkEntryView;

    open spec fn view(&self) -> WalkEntryView {
        WalkEntryView { path: self.path@, kind: self.kind, metadata: self.metadata }
    }
}

/// One step of a walk: an entry, or the reason why one could not be read.
#[derive(Debug, PartialEq, Eq)]
pub enum WalkEvent {
    Entry(WalkEntry),
    Failed(String),
}

/// Why an entry gives no resource.
#[derive(Debug, Clone, Copy, PartialEq, Eq)]
pub enum SkipReason {
    /// The walk could not read the entry.
    Unreadable,
    /// A directory that is walked on, or something that is neither file nor directory.
    NotAFile,
    /// A hidden file, and hidden files were not asked for.
    Hidden,
    /// A segment of the file's path is an ignored name.
    Ignored,
    /// The path does not lie under the directory that is walked.
    OutsideRoot,
    /// The file's metadata could not be read at all, so that not even its
    /// size is known: such a file is an entry that failed, and is left out.
    /// (Where the metadata can be read and only lacks a modification time,
    /// the file is kept and the time of the scan stands for it.)
    NoMetadata,
}

/// What the walker does with one event.
#[derive(Debug, PartialEq, Eq)]
pub enum WalkDecision {
    /// An ignored directory: neither it nor anything below it is visited.
    Prune,
    Skip(SkipReason),
    Emit(ResourceItem),
}

/// A `WalkDecision` with the resource by its view.
pub enum DecisionView {
    Prune,
    Skip(SkipReason),
    Emit(ResourceItemView),
}

impl View for WalkDecision {
    type V = DecisionView;

    open spec fn view(&self) -> DecisionView {
        match self {
            WalkDecision::Prune => DecisionView::Prune,
            WalkDecision::Skip(reason) => DecisionView::Skip(*reason),
            WalkDecision::Emit(item) => DecisionView::Emit(item@),
        }
    }
}

/// The RFC 3339 text of an instant in UTC, as `chrono` writes it, or `None`
/// where `chrono` cannot represent the instant.
pub uninterp spec fn rfc3339_utc(secs: i64, nanos: u32) -> Option<Seq<char>>;

/// Calls `chrono::DateTime::<Utc>::from_timestamp` and, on the instant it
/// gives, `DateTime::to_rfc3339`. The contract names the text and says that
/// there is none exactly where `from_timestamp` gives no instant.
#[verifier::external_body]
fn format_rfc3339(secs: i64, nanos: u32) -> (r: Option<String>)
    ensures
        match r {
            Some(text) => rfc3339_utc(secs, nanos) == Some(text@),
            None => rfc3339_utc(secs, nanos) is None,
        },
{
    match chrono::DateTime::<chrono::Utc>::from_timestamp(secs, nanos) {
        Some(instant) => Some(instant.to_rfc3339()),
        None => None,
    }
}

/// The pieces of a text between its commas.
pub open spec fn comma_pieces(s: Seq<char>) -> Seq<Seq<char>>
    decreases s.len(),
{
    if s.len() == 0 {
        seq![Seq::<char>::empty()]
    } else if s.last() == ',' {
        comma_pieces(s.drop_last()).push(Seq::<char>::empty())
    } else {
        let front = comma_pieces(s.drop_last());
        front.drop_last().push(front.last().push(s.last()))
    }
}

/// Each piece trimmed and in lower case, the empty ones left out.
pub open spec fn normalized_names(pieces: Seq<Seq<char>>) -> Seq<Seq<char>>
    decreases pieces.len(),
{
    if pieces.len() == 0 {
        Seq::empty()
    } else {
        let front = normalized_names(pieces.drop_last());
        let name = lowercase(trimmed(pieces.last()));
        if name.len() == 0 {
            front
        } else {
            front.push(name)
        }
    }
}

/// The ignored names that a comma-separated list stands for.
pub open spec fn ignore_names(list: Option<Seq<char>>) -> Seq<Seq<char>> {
    match list {
        Some(s) => normalized_names(comma_pieces(s)),
        None => Seq::empty(),
    }
}

proof fn lemma_comma_pieces_nonempty(s: Seq<char>)
    ensures
        comma_pieces(s).len() >= 1,
    decreases s.len(),
{
    if s.len() > 0 {
        lemma_comma_pieces_nonempty(s.drop_last());
    }
}

/// Reads a comma-separated list of directory names: each name is trimmed and
/// put in lower case, and empty names are dropped.
pub fn parse_ignore_list(list: &Option<String>) -> (names: Vec<String>)
    ensures
        texts(names@) == ignore_names(
            match *list {
                Some(s) => Some(s@),
                None => None,
            },
        ),
{
    let mut names: Vec<String> = Vec::new();
    match list {
        None => {
            assert(texts(names@) =~= Seq::<Seq<char>>::empty());
        },
        Some(s) => {
            let chars = chars_of(s.as_str());
            let n: usize = chars.len();
            let mut start: usize = 0;
            let mut i: usize = 0;
            assert(chars@.take(0) =~= Seq::<char>::empty());
            assert(chars@.subrange(0, 0) =~= Seq::<char>::empty());
            assert(comma_pieces(chars@.take(0)).drop_last() =~= Seq::<Seq<char>>::empty());
            assert(texts(names@) =~= normalized_names(Seq::<Seq<char>>::empty()));
            while i < n
                invariant
                    n == chars.len(),
                    chars@ == s@,
                    start <= i <= n,
                    comma_pieces(chars@.take(i as int)).len() >= 1,
                    comma_pieces(chars@.take(i as int)).last() == chars@.subrange(start as int, i as int),
                    texts(names@) == normalized_names(comma_pieces(chars@.take(i as int)).drop_last()),
                decreases n - i,
            {
                let ghost before = chars@.take(i as int);
                let ghost after = chars@.take(i + 1);
                assert(after.drop_last() =~= before);
                assert(after.last() == chars[i as int]);
                if chars[i] == ',' {
                    let (from, to) = trim_run(&chars, start, i);
                    let name = to_lowercase(s.as_str().substring_char(from, to));
                    let ghost old_names = names@;
                    assert(comma_pieces(after).drop_last() =~= comma_pieces(before));
                    assert(comma_pieces(before).drop_last().push(comma_pieces(before).last()) =~= comma_pieces(before));
                    if name.as_str().unicode_len() > 0 {
                        names.push(name);
                        assert(texts(names@) =~= texts(old_names).push(name@));
                    }
                    start = i + 1;
                    assert(chars@.subrange(i + 1, i + 1) =~= Seq::<char>::empty());
                } else {
                    assert(comma_pieces(after).drop_last() =~= comma_pieces(before).drop_last());
                    assert(chars@.subrange(start as int, i + 1) =~= chars@.subrange(start as int, i as int).push(chars[i as int]));
                }
                i = i + 1;
            }
            assert(chars@.take(n as int) =~= chars@);
            let (from, to) = trim_run(&chars, start, n);
            let name = to_lowercase(s.as_str().substring_char(from, to));
            let ghost old_names = names@;
            assert(comma_pieces(chars@).drop_last().push(comma_pieces(chars@).last()) =~= comma_pieces(chars@));
            if name.as_str().unicode_len() > 0 {
                names.push(name);
                assert(texts(names@) =~= texts(old_names).push(name@));
            }
        },
    }
    names
}

/// The modification time recorded for a file: the text of the instant the
/// file system gave, or `fallback` where it gave none that can be written.
pub open spec fn modified_text(modified: Option<Timestamp>, fallback: Seq<char>) -> Seq<char> {
    match modified {
        Some(t) => match rfc3339_utc(t.secs, t.nanos) {
            Some(text) => text,
            None => fallback,
        },
        None => fallback,
    }
}

/// The resource that a file entry with readable metadata gives. Its `id` and
/// `category_id` are 0 until it is stored.
pub open spec fn resource_of(entry: WalkEntryView, metadata: FileMetadata, scanned_at: Seq<char>) -> ResourceItemView {
    ResourceItemView {
        id: 0,
        category_id: 0,
        file_name: last_segment(entry.path),
        file_path: entry.path,
        file_size: metadata.size as i64,
        file_type: file_type_of(last_segment(entry.path)),
        modified_at: modified_text(metadata.modified, scanned_at),
        scanned_at,
    }
}

/// What the walk of `root` does with one entry. The name of the entry, by
/// which a directory is pruned and a file is hidden, is the last segment of
/// its path.
pub open spec fn entry_decision(
    root: Seq<char>,
    entry: WalkEntryView,
    show_hidden: bool,
    ignore: Seq<Seq<char>>,
    scanned_at: Seq<char>,
) -> DecisionView {
    match entry.kind {
        EntryKind::Directory => if matches_any(last_segment(entry.path), ignore) {
            DecisionView::Prune
        } else {
            DecisionView::Skip(SkipReason::NotAFile)
        },
        EntryKind::Other => DecisionView::Skip(SkipReason::NotAFile),
        EntryKind::File => if !show_hidden && is_hidden_name(last_segment(entry.path)) {
            DecisionView::Skip(SkipReason::Hidden)
        } else if has_ignored_segment(entry.path, ignore) {
            DecisionView::Skip(SkipReason::Ignored)
        } else if !path_under(root, entry.path) {
            DecisionView::Skip(SkipReason::OutsideRoot)
        } else {
            match entry.metadata {
                Some(metadata) => DecisionView::Emit(resource_of(entry, metadata, scanned_at)),
                None => DecisionView::Skip(SkipReason::NoMetadata),
            }
        },
    }
}

/// What the walk of `root` does with one event: a failed read is skipped, an
/// entry is decided by `entry_decision`.
pub open spec fn event_decision(
    root: Seq<char>,
    event: WalkEvent,
    show_hidden: bool,
    ignore: Seq<Seq<char>>,
    scanned_at: Seq<char>,
) -> DecisionView {
    match event {
        WalkEvent::Entry(entry) => entry_decision(root, entry@, show_hidden, ignore, scanned_at),
        WalkEvent::Failed(_) => DecisionView::Skip(SkipReason::Unreadable),
    }
}

/// The resources that a walk of `root` gives: one for each event that is
/// decided `Emit`, in the order of the events.
pub open spec fn scanned(
    root: Seq<char>,
    events: Seq<WalkEvent>,
    show_hidden: bool,
    ignore: Seq<Seq<char>>,
    scanned_at: Seq<char>,
) -> Seq<ResourceItemView>
    decreases events.len(),
{
    if events.len() == 0 {
        Seq::empty()
    } else {
        let front = scanned(root, events.drop_last(), show_hidden, ignore, scanned_at);
        match event_decision(root, events.last(), show_hidden, ignore, scanned_at) {
            DecisionView::Emit(item) => front.push(item),
            _ => front,
        }
    }
}

/// Every resource of a scan lies under the directory that was walked, and no
/// segment of its path is an ignored name.
pub proof fn lemma_scanned_paths(
    root: Seq<char>,
    events: Seq<WalkEvent>,
    show_hidden: bool,
    ignore: Seq<Seq<char>>,
    scanned_at: Seq<char>,
)
    ensures
        forall|i: int|
            0 <= i < scanned(root, events, show_hidden, ignore, scanned_at).len() ==> {
                let item = #[trigger] scanned(root, events, show_hidden, ignore, scanned_at)[i];
                path_under(root, item.file_path) && !has_ignored_segment(item.file_path, ignore)
            },
    decreases events.len(),
{
    if events.len() > 0 {
        lemma_scanned_paths(root, events.drop_last(), show_hidden, ignore, scanned_at);
        let all = scanned(root, events, show_hidden, ignore, scanned_at);
        let front = scanned(root, events.drop_last(), show_hidden, ignore, scanned_at);
        assert forall|i: int| 0 <= i < all.len() implies path_under(root, (#[trigger] all[i]).file_path)
            && !has_ignored_segment(all[i].file_path, ignore) by {
            if i < front.len() {
                assert(all[i] == front[i]);
            }
        }
    }
}

/// Unless hidden files were asked for, no resource of a scan has a name that
/// begins with a dot.
pub proof fn lemma_scanned_hidden_excluded(
    root: Seq<char>,
    events: Seq<WalkEvent>,
    ignore: Seq<Seq<char>>,
    scanned_at: Seq<char>,
)
    ensures
        forall|i: int|
            0 <= i < scanned(root, events, false, ignore, scanned_at).len() ==> !is_hidden_name(
                (#[trigger] scanned(root, events, false, ignore, scanned_at)[i]).file_name,
            ),
    decreases events.len(),
{
    if events.len() > 0 {
        lemma_scanned_hidden_excluded(root, events.drop_last(), ignore, scanned_at);
        let all = scanned(root, events, false, ignore, scanned_at);
        let front = scanned(root, events.drop_last(), false, ignore, scanned_at);
        assert forall|i: int| 0 <= i < all.len() implies !is_hidden_name((#[trigger] all[i]).file_name) by {
            if i < front.len() {
                assert(all[i] == front[i]);
            }
        }
    }
}

/// The name of every resource of a scan is the last segment of its path.
pub proof fn lemma_scanned_names(
    root: Seq<char>,
    events: Seq<WalkEvent>,
    show_hidden: bool,
    ignore: Seq<Seq<char>>,
    scanned_at: Seq<char>,
)
    ensures
        forall|i: int|
            0 <= i < scanned(root, events, show_hidden, ignore, scanned_at).len() ==> (#[trigger] scanned(
                root,
                events,
                show_hidden,
                ignore,
                scanned_at,
            )[i]).file_name == last_segment(scanned(root, events, show_hidden, ignore, scanned_at)[i].file_path),
    decreases events.len(),
{
    if events.len() > 0 {
        lemma_scanned_names(root, events.drop_last(), show_hidden, ignore, scanned_at);
        let all = scanned(root, events, show_hidden, ignore, scanned_at);
        let front = scanned(root, events.drop_last(), show_hidden, ignore, scanned_at);
        assert forall|i: int| 0 <= i < all.len() implies (#[trigger] all[i]).file_name == last_segment(all[i].file_path) by {
            if i < front.len() {
                assert(all[i] == front[i]);
            }
        }
    }
}

/// An event that is decided `Emit` has its resource in the result of the scan.
pub proof fn lemma_scanned_includes(
    root: Seq<char>,
    events: Seq<WalkEvent>,
    show_hidden: bool,
    ignore: Seq<Seq<char>>,
    scanned_at: Seq<char>,
    j: int,
)
    requires
        0 <= j < events.len(),
        event_decision(root, events[j], show_hidden, ignore, scanned_at) is Emit,
    ensures
        scanned(root, events, show_hidden, ignore, scanned_at).contains(
            event_decision(root, events[j], show_hidden, ignore, scanned_at)->Emit_0,
        ),
    decreases events.len(),
{
    let all = scanned(root, events, show_hidden, ignore, scanned_at);
    let front = scanned(root, events.drop_last(), show_hidden, ignore, scanned_at);
    if j == events.len() - 1 {
        assert(all[all.len() - 1] == event_decision(root, events[j], show_hidden, ignore, scanned_at)->Emit_0);
    } else {
        lemma_scanned_includes(root, events.drop_last(), show_hidden, ignore, scanned_at, j);
        let item = event_decision(root, events[j], show_hidden, ignore, scanned_at)->Emit_0;
        let k = choose|k: int| 0 <= k < front.len() && front[k] == item;
        assert(all[k] == item);
    }
}

/// With hidden files asked for, a hidden file is scanned like any other: a
/// file that lies under the root, has readable metadata and no ignored segment
/// in its path is in the result, whatever its name begins with.
pub proof fn lemma_hidden_included_when_shown(
    root: Seq<char>,
    events: Seq<WalkEvent>,
    ignore: Seq<Seq<char>>,
    scanned_at: Seq<char>,
    j: int,
)
    requires
        0 <= j < events.len(),
        events[j] is Entry,
        events[j]->Entry_0@.kind == EntryKind::File,
        events[j]->Entry_0@.metadata is Some,
        path_under(root, events[j]->Entry_0@.path),
        !has_ignored_segment(events[j]->Entry_0@.path, ignore),
    ensures
        scanned(root, events, true, ignore, scanned_at).contains(
            resource_of(events[j]->Entry_0@, events[j]->Entry_0@.metadata->0, scanned_at),
        ),
{
    lemma_scanned_includes(root, events, true, ignore, scanned_at, j);
}

fn entry_name(entry: &WalkEntry) -> (name: String)
    ensures
        name@ == last_segment(entry@.path),
{
    let chars = chars_of(entry.path.as_str());
    let (start, end) = last_segment_bounds(&chars);
    String::from_str(entry.path.as_str().substring_char(start, end))
}

fn decide_entry(
    root: &Vec<char>,
    entry: &WalkEntry,
    show_hidden: bool,
    ignore: &Vec<String>,
    scanned_at: &str,
) -> (decision: WalkDecision)
    ensures
        decision@ == entry_decision(root@, entry@, show_hidden, texts(ignore@), scanned_at@),
{
    let name = entry_name(entry);
    match entry.kind {
        EntryKind::Directory => {
            if is_ignored_name(name.as_str(), ignore) {
                WalkDecision::Prune
            } else {
                WalkDecision::Skip(SkipReason::NotAFile)
            }
        },
        EntryKind::Other => WalkDecision::Skip(SkipReason::NotAFile),
        EntryKind::File => {
            if !show_hidden && is_hidden(name.as_str()) {
                return WalkDecision::Skip(SkipReason::Hidden);
            }
            if path_has_ignored_segment(entry.path.as_str(), ignore) {
                return WalkDecision::Skip(SkipReason::Ignored);
            }
            let path = chars_of(entry.path.as_str());
            if !is_path_under(root, &path) {
                return WalkDecision::Skip(SkipReason::OutsideRoot);
            }
            match entry.metadata {
                None => WalkDecision::Skip(SkipReason::NoMetadata),
                Some(metadata) => {
                    let written = match metadata.modified {
                        Some(t) => format_rfc3339(t.secs, t.nanos),
                        None => None,
                    };
                    let modified_at = match written {
                        Some(text) => text,
                        None => scanned_at.to_owned(),
                    };
                    let file_type = get_file_type(name.as_str());
                    WalkDecision::Emit(
                        ResourceItem {
                            id: 0,
                            category_id: 0,
                            file_name: name,
                            file_path: entry.path.clone(),
                            file_size: #[verifier::truncate] (metadata.size as i64),
                            file_type,
                            modified_at,
                            scanned_at: scanned_at.to_owned(),
                        },
                    )
                },
            }
        },
    }
}

/// Whether the walk leaves a directory out with all that is below it: it does
/// where the entry is a directory whose name is an ignored name.
pub fn is_pruned(entry: &WalkEntry, ignore_directories: &Vec<String>) -> (pruned: bool)
    ensures
        pruned == (entry@.kind == EntryKind::Directory && matches_any(
            last_segment(entry@.path),
            texts(ignore_directories@),
        )),
        forall|root: Seq<char>, show_hidden: bool, scanned_at: Seq<char>|
            pruned == (#[trigger] entry_decision(root, entry@, show_hidden, texts(ignore_directories@), scanned_at) is Prune),
{
    match entry.kind {
        EntryKind::Directory => {
            let name = entry_name(entry);
            is_ignored_name(name.as_str(), ignore_directories)
        },
        _ => false,
    }
}

/// Decides one event of the walk of `root`: prune an ignored directory, skip
/// what gives no resource, or emit the resource of a file.
pub fn classify_event(
    root: &str,
    event: &WalkEvent,
    show_hidden: bool,
    ignore_directories: &Vec<String>,
    scanned_at: &str,
) -> (decision: WalkDecision)
    ensures
        decision@ == event_decision(root@, *event, show_hidden, texts(ignore_directories@), scanned_at@),
{
    match event {
        WalkEvent::Failed(_) => WalkDecision::Skip(SkipReason::Unreadable),
        WalkEvent::Entry(entry) => {
            let root_chars = chars_of(root);
            decide_entry(&root_chars, entry, show_hidden, ignore_directories, scanned_at)
        },
    }
}

/// Turns the events of one walk of `root` into resources. Hidden files are
/// left out unless `show_hidden`; a file is left out when a segment of its
/// path is an ignored name, when it does not lie under `root`, or when its
/// metadata could not be read. A failed read is skipped and never ends the
/// scan. The name of each resource is the last segment of its path.
pub fn scan_path(
    root: &str,
    events: &Vec<WalkEvent>,
    show_hidden: bool,
    ignore_directories: &Vec<String>,
    scanned_at: &str,
) -> (resources: Vec<ResourceItem>)
    ensures
        resource_views(resources@) == scanned(root@, events@, show_hidden, texts(ignore_directories@), scanned_at@),
        forall|i: int|
            0 <= i < resources.len() ==> path_under(root@, (#[trigger] resources[i]).file_path@)
                && !has_ignored_segment(resources[i].file_path@, texts(ignore_directories@)),
        !show_hidden ==> forall|i: int| 0 <= i < resources.len() ==> !is_hidden_name((#[trigger] resources[i]).file_name@),
        forall|i: int| 0 <= i < resources.len() ==> (#[trigger] resources[i]).file_name@ == last_segment(resources[i].file_path@),
{
    let root_chars = chars_of(root);
    let mut resources: Vec<ResourceItem> = Vec::new();
    let mut i: usize = 0;
    assert(events@.take(0) =~= Seq::<WalkEvent>::empty());
    assert(resource_views(resources@) =~= Seq::<ResourceItemView>::empty());
    while i < events.len()
        invariant
            i <= events.len(),
            root_chars@ == root@,
            resource_views(resources@) == scanned(root@, events@.take(i as int), show_hidden, texts(ignore_directories@), scanned_at@),
        decreases events.len() - i,
    {
        assert(events@.take(i + 1).drop_last() =~= events@.take(i as int));
        assert(events@.take(i + 1).last() == events[i as int]);
        match &events[i] {
            WalkEvent::Failed(_) => {},
            WalkEvent::Entry(entry) => {
                let decision = decide_entry(&root_chars, entry, show_hidden, ignore_directories, scanned_at);
                match decision {
                    WalkDecision::Emit(item) => {
                        let ghost before = resources@;
                        resources.push(item);
                        assert(resource_views(resources@) =~= resource_views(before).push(item@));
                    },
                    _ => {},
                }
            },
        }
        i = i + 1;
    }
    assert(events@.take(events.len() as int) =~= events@);
    proof {
        let views = resource_views(resources@);
        lemma_scanned_paths(root@, events@, show_hidden, texts(ignore_directories@), scanned_at@);
        assert forall|i: int| 0 <= i < resources.len() implies path_under(root@, (#[trigger] resources[i]).file_path@)
            && !has_ignored_segment(resources[i].file_path@, texts(ignore_directories@)) by {
            assert(views[i] == resources[i]@);
        }
        if !show_hidden {
            lemma_scanned_hidden_excluded(root@, events@, texts(ignore_directories@), scanned_at@);
            assert forall|i: int| 0 <= i < resources.len() implies !is_hidden_name((#[trigger] resources[i]).file_name@) by {
                assert(views[i] == resources[i]@);
            }
        }
        lemma_scanned_names(root@, events@, show_hidden, texts(ignore_directories@), scanned_at@);
        assert forall|i: int| 0 <= i < resources.len() implies (#[trigger] resources[i]).file_name@ == last_segment(
            resources[i].file_path@,
        ) by {
            assert(views[i] == resources[i]@);
        }
    }
    resources
}

} // verus!
