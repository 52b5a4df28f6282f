//! The tree walker's policy: which entries of a walk are scanned, and how the
//! records of the scanned files make up the result of a search.

use vstd::prelude::*;
use vstd::seq_lib::lemma_flatten_concat;
use crate::matcher::{
    file_matches, lemma_hit_has_record, lemma_record_iff_hitting_line, lemma_record_is_hit,
    scan_lines, slot_hits,
};
use crate::record::{Match, MatchView};

verus! {

/// The size gate: a file of more than this many bytes is never opened.
pub const MAX_FILE_SIZE: u64 = 10_000_000;

/// What a look at the root of a search showed.
#[derive(Debug, Clone, Copy, PartialEq, Eq, Structural)]
pub enum RootState {
    /// A directory that can be read.
    Directory,
    /// Nothing exists at the path.
    Missing,
    /// The path names something that is no directory.
    NotADirectory,
    /// A directory that cannot be read.
    Unreadable,
}

/// Why a search could not start: the root is no readable directory.
#[derive(Debug, Clone, Copy, PartialEq, Eq, Structural)]
pub enum AccessError {
    Missing,
    NotADirectory,
    Unreadable,
}

/// One entry that a walk produced, as plain values.
#[derive(Debug, Clone, PartialEq, Eq)]
pub struct FileEntry {
    /// The entry's path, as it is to appear in the records.
    pub path: String,
    /// Whether the entry's type is known and is that of a regular file.
    pub is_file: bool,
    /// The entry's size in bytes, `None` where it could not be determined.
    pub size: Option<u64>,
    /// The file's physical lines in order, each `None` where it could not be
    /// decoded; `None` as a whole where the file was not or could not be opened.
    pub lines: Option<Vec<Option<String>>>,
}

/// The mathematical value of a [`FileEntry`].
pub struct FileEntryView {
    pub path: Seq<char>,
    pub is_file: bool,
    pub size: Option<u64>,
    pub lines: Option<Seq<Option<Seq<char>>>>,
}

impl View for FileEntry {
    type V = FileEntryView;

    open spec fn view(&self) -> FileEntryView {
        FileEntryView {
            path: self.path@,
            is_file: self.is_file,
            size: self.size,
            lines: self.lines.deep_view(),
        }
    }
}

impl DeepView for FileEntry {
    type V = FileEntryView;

    open spec fn deep_view(&self) -> FileEntryView {
        self@
    }
}

/// The error that a root in state `root` gives, `None` for a readable directory.
pub open spec fn access_error(root: RootState) -> Option<AccessError> {
    match root {
        RootState::Directory => None,
        RootState::Missing => Some(AccessError::Missing),
        RootState::NotADirectory => Some(AccessError::NotADirectory),
        RootState::Unreadable => Some(AccessError::Unreadable),
    }
}

/// An entry is admitted when it is a regular file whose size is known and
/// within the size gate.
pub open spec fn admitted(is_file: bool, size: Option<u64>) -> bool {
    is_file && (size matches Some(bytes) && bytes <= MAX_FILE_SIZE)
}

/// The records of one entry: those of its lines where the entry is admitted
/// and its lines were read, none otherwise.
pub open spec fn entry_matches(term: Seq<char>, entry: FileEntryView) -> Seq<MatchView> {
    if admitted(entry.is_file, entry.size) && entry.lines is Some {
        file_matches(entry.path, term, entry.lines->0)
    } else {
        Seq::empty()
    }
}

/// The result of a search over the entries of a walk: the records of each
/// entry, entry after entry in the order of the walk.
pub open spec fn tree_matches(term: Seq<char>, entries: Seq<FileEntryView>) -> Seq<MatchView> {
    entries.map_values(|entry: FileEntryView| entry_matches(term, entry)).flatten()
}

/// The entry is scanned and at least one of its lines is a hit.
pub open spec fn entry_has_hit(term: Seq<char>, entry: FileEntryView) -> bool {
    &&& admitted(entry.is_file, entry.size)
    &&& entry.lines matches Some(lines) && exists|i: int|
        0 <= i < lines.len() && slot_hits(term, #[trigger] lines[i])
}

/// Accepts a root that is a readable directory and refuses any other.
pub fn check_root(root: RootState) -> (checked: Result<(), AccessError>)
    ensures
        checked == match access_error(root) {
            Some(error) => Err::<(), AccessError>(error),
            None => Ok::<(), AccessError>(()),
        },
{
    match root {
        RootState::Directory => Ok(()),
        RootState::Missing => Err(AccessError::Missing),
        RootState::NotADirectory => Err(AccessError::NotADirectory),
        RootState::Unreadable => Err(AccessError::Unreadable),
    }
}

/// Whether an entry of the given type and size is to be opened and scanned.
pub fn admits(is_file: bool, size: Option<u64>) -> (ok: bool)
    ensures
        ok == admitted(is_file, size),
{
    if !is_file {
        return false;
    }
    match size {
        Some(bytes) => bytes <= MAX_FILE_SIZE,
        None => false,
    }
}

/// Scans one entry and appends its records to `found`, behind those already there.
pub fn scan_entry(found: &mut Vec<Match>, term: &str, entry: &FileEntry)
    ensures
        final(found).deep_view() == old(found).deep_view() + entry_matches(term@, entry@),
{
    let ghost before = found.deep_view();
    if admits(entry.is_file, entry.size) {
        match &entry.lines {
            Some(lines) => {
                let mut records = scan_lines(entry.path.as_str(), term, lines);
                let ghost added = records.deep_view();
                found.append(&mut records);
                assert(found.deep_view() =~= before + added);
            },
            None => {},
        }
    }
    assert(found.deep_view() =~= before + entry_matches(term@, entry@));
}

/// Searches the entries of a walk for `search_term`. Fails if and only if the
/// root is no readable directory; otherwise the result holds the records of
/// the admitted entries, grouped by entry in the order of the walk and, within
/// an entry, by ascending line number.
pub fn search_files(search_term: &str, root: RootState, entries: &Vec<FileEntry>) -> (result:
    Result<Vec<Match>, AccessError>)
    ensures
        match access_error(root) {
            Some(error) => result == Err::<Vec<Match>, AccessError>(error),
            None => result matches Ok(found) && found.deep_view() == tree_matches(
                search_term@,
                entries.deep_view(),
            ),
        },
        result matches Ok(found) ==> forall|k: int|
            0 <= k < found.len() ==> (#[trigger] found[k])@.well_formed(),
{
    match check_root(root) {
        Err(error) => {
            return Err(error);
        },
        Ok(_) => {},
    }
    let ghost views = entries.deep_view();
    let ghost per_entry = views.map_values(|entry: FileEntryView| entry_matches(search_term@, entry));
    let mut found: Vec<Match> = Vec::new();
    let mut i: usize = 0;
    assert(found.deep_view() =~= per_entry.take(0).flatten());
    while i < entries.len()
        invariant
            i <= entries.len(),
            views == entries.deep_view(),
            per_entry == views.map_values(
                |entry: FileEntryView| entry_matches(search_term@, entry),
            ),
            found.deep_view() == per_entry.take(i as int).flatten(),
        decreases entries.len() - i,
    {
        scan_entry(&mut found, search_term, &entries[i]);
        proof {
            assert(per_entry.take(i + 1) =~= per_entry.take(i as int).push(per_entry[i as int]));
            per_entry.take(i as int).lemma_flatten_push(per_entry[i as int]);
        }
        i += 1;
    }
    proof {
        assert(per_entry.take(entries.len() as int) =~= per_entry);
        assert forall|k: int| 0 <= k < found.len() implies (#[trigger] found[k])@.well_formed() by {
            let record = found.deep_view()[k];
            assert(record == found[k]@);
            assert(tree_matches(search_term@, views).contains(record));
            lemma_tree_record_iff_entry_record(search_term@, views, record);
            let j = choose|j: int|
                0 <= j < views.len() && entry_matches(search_term@, #[trigger] views[j]).contains(
                    record,
                );
            lemma_record_iff_hitting_line(views[j].path, search_term@, views[j].lines->0, record);
        }
    }
    Ok(found)
}

/// The size gate is sharp and final: an entry of more than 10,000,000 bytes
/// gives no record whatever its lines hold, and a regular file of at most that
/// many bytes whose lines were read gives the records of its lines.
pub proof fn lemma_size_gate(term: Seq<char>, entry: FileEntryView)
    ensures
        entry.size matches Some(bytes) && bytes > 10_000_000 ==> entry_matches(term, entry)
            == Seq::<MatchView>::empty(),
        entry.is_file && entry.lines is Some && (entry.size matches Some(bytes) && bytes
            <= 10_000_000) ==> entry_matches(term, entry) == file_matches(
            entry.path,
            term,
            entry.lines->0,
        ),
{
}

/// An entry gives no record if and only if it is not scanned or none of its
/// lines is a hit.
pub proof fn lemma_entry_empty_iff_no_hit(term: Seq<char>, entry: FileEntryView)
    ensures
        entry_matches(term, entry).len() == 0 <==> !entry_has_hit(term, entry),
{
    if admitted(entry.is_file, entry.size) && entry.lines is Some {
        let lines = entry.lines->0;
        let records = file_matches(entry.path, term, lines);
        if records.len() > 0 {
            lemma_record_is_hit(entry.path, term, lines, 0);
            assert(slot_hits(term, lines[records[0].line_number - 1]));
        }
        if entry_has_hit(term, entry) {
            let i = choose|i: int| 0 <= i < lines.len() && slot_hits(term, #[trigger] lines[i]);
            lemma_hit_has_record(entry.path, term, lines, i);
        }
    }
}

/// The records of a walk in two parts are those of the first part followed by
/// those of the second: the result is grouped by entry, in the order of the walk.
pub proof fn lemma_tree_matches_concat(
    term: Seq<char>,
    first: Seq<FileEntryView>,
    second: Seq<FileEntryView>,
)
    ensures
        tree_matches(term, first + second) == tree_matches(term, first) + tree_matches(
            term,
            second,
        ),
{
    let each = |entry: FileEntryView| entry_matches(term, entry);
    assert((first + second).map_values(each) =~= first.map_values(each) + second.map_values(each));
    lemma_flatten_concat(first.map_values(each), second.map_values(each));
}

/// A record is in the result of a search if and only if it is a record of one
/// of the entries of the walk.
pub proof fn lemma_tree_record_iff_entry_record(
    term: Seq<char>,
    entries: Seq<FileEntryView>,
    record: MatchView,
)
    ensures
        tree_matches(term, entries).contains(record) <==> exists|j: int|
            0 <= j < entries.len() && entry_matches(term, #[trigger] entries[j]).contains(record),
    decreases entries.len(),
{
    let all = tree_matches(term, entries);
    if entries.len() > 0 {
        let front = entries.drop_last();
        let last = entries.last();
        let each = |entry: FileEntryView| entry_matches(term, entry);
        assert(entries =~= front + seq![last]);
        lemma_tree_matches_concat(term, front, seq![last]);
        assert(seq![last].map_values(each) =~= seq![entry_matches(term, last)]);
        seq![entry_matches(term, last)].lemma_flatten_singleton();
        let head = tree_matches(term, front);
        let tail = entry_matches(term, last);
        assert(all == head + tail);
        lemma_tree_record_iff_entry_record(term, front, record);
        if all.contains(record) {
            let k = choose|k: int| 0 <= k < all.len() && all[k] == record;
            if k < head.len() {
                assert(head[k] == record);
                let j = choose|j: int|
                    0 <= j < front.len() && entry_matches(term, #[trigger] front[j]).contains(record);
                assert(entries[j] == front[j]);
            } else {
                assert(tail[k - head.len()] == record);
                assert(entry_matches(term, entries[entries.len() - 1]).contains(record));
            }
        }
        if exists|j: int|
            0 <= j < entries.len() && entry_matches(term, #[trigger] entries[j]).contains(record) {
            let j = choose|j: int|
                0 <= j < entries.len() && entry_matches(term, #[trigger] entries[j]).contains(record);
            if j < front.len() {
                assert(front[j] == entries[j]);
                assert(head.contains(record));
                let k = choose|k: int| 0 <= k < head.len() && head[k] == record;
                assert(all[k] == record);
            } else {
                let k = choose|k: int| 0 <= k < tail.len() && tail[k] == record;
                assert(all[head.len() + k] == record);
            }
        }
    } else {
        assert(entries.map_values(|entry: FileEntryView| entry_matches(term, entry)) =~= Seq::<
            Seq<MatchView>,
        >::empty());
    }
}

/// A search of a readable root comes out empty, and is no error, if and only
/// if no entry of the walk is scanned and holds a hit.
pub proof fn lemma_empty_iff_no_hit(term: Seq<char>, entries: Seq<FileEntryView>)
    ensures
        tree_matches(term, entries).len() == 0 <==> forall|j: int|
            0 <= j < entries.len() ==> !entry_has_hit(term, #[trigger] entries[j]),
    decreases entries.len(),
{
    if entries.len() > 0 {
        let front = entries.drop_last();
        let last = entries.last();
        assert(entries =~= front + seq![last]);
        lemma_tree_matches_concat(term, front, seq![last]);
        let each = |entry: FileEntryView| entry_matches(term, entry);
        assert(seq![last].map_values(each) =~= seq![entry_matches(term, last)]);
        seq![entry_matches(term, last)].lemma_flatten_singleton();
        assert(tree_matches(term, seq![last]) == entry_matches(term, last));
        lemma_entry_empty_iff_no_hit(term, last);
        lemma_empty_iff_no_hit(term, front);
        if tree_matches(term, entries).len() == 0 {
            assert forall|j: int| 0 <= j < entries.len() implies !entry_has_hit(
                term,
                #[trigger] entries[j],
            ) by {
                if j < front.len() {
                    assert(entries[j] == front[j]);
                }
            }
        } else {
            if tree_matches(term, front).len() > 0 {
                let j = choose|j: int| 0 <= j < front.len() && entry_has_hit(term, #[trigger] front[j]);
                assert(entries[j] == front[j]);
            } else {
                assert(entry_has_hit(term, entries[entries.len() - 1]));
            }
        }
    } else {
        assert(entries.map_values(|entry: FileEntryView| entry_matches(term, entry)) =~= Seq::<
            Seq<MatchView>,
        >::empty());
    }
}

} // verus!
