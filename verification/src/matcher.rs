//! The line matcher: which lines of one file are hits, and the records they give.

use vstd::prelude::*;
use crate::record::{Match, MatchView};
use crate::text::{
    contains_chars, lemma_empty_occurs, lowercase, occurs_in, to_chars, to_lowercase,
};

verus! {

/// A line is a hit for a term when the folded line contains the folded term.
pub open spec fn line_hits(term: Seq<char>, line: Seq<char>) -> bool {
    occurs_in(lowercase(line), lowercase(term))
}

/// A slot of a file is one physical line: its text, or `None` where the line
/// could not be decoded. Only a decoded line can be a hit.
pub open spec fn slot_hits(term: Seq<char>, slot: Option<Seq<char>>) -> bool {
    slot matches Some(text) && line_hits(term, text)
}

/// The records of one file: one for each slot that is a hit, in the order of
/// the lines, each numbered by the 1-based position of its slot.
pub open spec fn file_matches(
    path: Seq<char>,
    term: Seq<char>,
    lines: Seq<Option<Seq<char>>>,
) -> Seq<MatchView>
    decreases lines.len(),
{
    if lines.len() == 0 {
        Seq::empty()
    } else {
        let earlier = file_matches(path, term, lines.drop_last());
        if slot_hits(term, lines.last()) {
            earlier.push(
                MatchView {
                    file_path: path,
                    line_number: lines.len(),
                    line_content: lines.last()->0,
                },
            )
        } else {
            earlier
        }
    }
}

/// The number of slots of a file that are hits.
pub open spec fn hit_count(term: Seq<char>, lines: Seq<Option<Seq<char>>>) -> nat {
    lines.filter(|slot: Option<Seq<char>>| slot_hits(term, slot)).len()
}

/// Some record of `records` carries the line number of slot `i`.
pub open spec fn has_record_for(records: Seq<MatchView>, i: int) -> bool {
    exists|k: int| 0 <= k < records.len() && #[trigger] records[k].line_number == i + 1
}

/// Whether `line` contains the term whose folded characters are `folded_term`.
fn hits_folded(folded_term: &Vec<char>, line: &str) -> (hit: bool)
    ensures
        hit == occurs_in(lowercase(line@), folded_term@),
{
    let folded_line = to_lowercase(line);
    let line_chars = to_chars(folded_line.as_str());
    contains_chars(&line_chars, folded_term)
}

/// Whether `line` is a hit for `term`: both are folded, then the folded line is
/// searched for the folded term. The empty term hits every line.
pub fn line_matches(term: &str, line: &str) -> (hit: bool)
    ensures
        hit == line_hits(term@, line@),
        term@.len() == 0 ==> hit,
{
    let folded_term = to_lowercase(term);
    let term_chars = to_chars(folded_term.as_str());
    proof {
        if term@.len() == 0 {
            lemma_empty_occurs(lowercase(line@), term_chars@);
        }
    }
    hits_folded(&term_chars, line)
}

/// Scans the lines of one file. `lines` holds one slot per physical line, in
/// order, `None` standing for a line that could not be decoded: such a line
/// gives no record but still counts in the numbering.
pub fn scan_lines(path: &str, term: &str, lines: &Vec<Option<String>>) -> (found: Vec<Match>)
    ensures
        found.deep_view() == file_matches(path@, term@, lines.deep_view()),
        forall|k: int| 0 <= k < found.len() ==> (#[trigger] found[k])@.well_formed(),
        term@.len() == 0 ==> forall|i: int|
            0 <= i < lines.len() && lines[i] is Some ==> has_record_for(found.deep_view(), i),
{
    let folded_term = to_lowercase(term);
    let term_chars = to_chars(folded_term.as_str());
    let ghost slots = lines.deep_view();
    let mut found: Vec<Match> = Vec::new();
    let mut i: usize = 0;
    assert(slots.take(0) =~= Seq::empty());
    while i < lines.len()
        invariant
            i <= lines.len(),
            slots == lines.deep_view(),
            term_chars@ == lowercase(term@),
            found.deep_view() == file_matches(path@, term@, slots.take(i as int)),
        decreases lines.len() - i,
    {
        let ghost before = found.deep_view();
        proof {
            assert(slots.take(i + 1).drop_last() =~= slots.take(i as int));
            assert(slots.take(i + 1).last() == lines[i as int].deep_view());
        }
        match &lines[i] {
            Some(text) => {
                if hits_folded(&term_chars, text.as_str()) {
                    let record = Match {
                        file_path: path.to_owned(),
                        line_number: i + 1,
                        line_content: text.clone(),
                    };
                    found.push(record);
                    assert(found.deep_view() =~= before.push(record@));
                }
            },
            None => {},
        }
        i += 1;
    }
    proof {
        assert(slots.take(lines.len() as int) =~= slots);
        assert forall|k: int| 0 <= k < found.len() implies (#[trigger] found[k])@.well_formed() by {
            lemma_record_is_hit(path@, term@, slots, k);
            assert(found.deep_view()[k] == found[k]@);
        }
        if term@.len() == 0 {
            assert forall|i: int| 0 <= i < lines.len() && lines[i] is Some implies has_record_for(
                found.deep_view(),
                i,
            ) by {
                lemma_empty_occurs(lowercase(slots[i]->0), lowercase(term@));
                lemma_hit_has_record(path@, term@, slots, i);
            }
        }
    }
    found
}

/// Every record of a file stems from a slot that is a hit: it carries the
/// file's path, the 1-based position of that slot, and the slot's text.
pub proof fn lemma_record_is_hit(
    path: Seq<char>,
    term: Seq<char>,
    lines: Seq<Option<Seq<char>>>,
    k: int,
)
    requires
        0 <= k < file_matches(path, term, lines).len(),
    ensures
        ({
            let record = file_matches(path, term, lines)[k];
            &&& record.file_path == path
            &&& 1 <= record.line_number <= lines.len()
            &&& lines[record.line_number - 1] == Some(record.line_content)
            &&& line_hits(term, record.line_content)
        }),
    decreases lines.len(),
{
    if lines.len() > 0 {
        let earlier = file_matches(path, term, lines.drop_last());
        if k < earlier.len() {
            lemma_record_is_hit(path, term, lines.drop_last(), k);
        }
    }
}

/// Every slot that is a hit has a record: the one with its 1-based position.
pub proof fn lemma_hit_has_record(
    path: Seq<char>,
    term: Seq<char>,
    lines: Seq<Option<Seq<char>>>,
    i: int,
)
    requires
        0 <= i < lines.len(),
        slot_hits(term, lines[i]),
    ensures
        has_record_for(file_matches(path, term, lines), i),
    decreases lines.len(),
{
    let records = file_matches(path, term, lines);
    let earlier = file_matches(path, term, lines.drop_last());
    if i == lines.len() - 1 {
        assert(records[earlier.len() as int].line_number == i + 1);
    } else {
        lemma_hit_has_record(path, term, lines.drop_last(), i);
        let k = choose|k: int| 0 <= k < earlier.len() && #[trigger] earlier[k].line_number == i + 1;
        assert(records[k].line_number == i + 1);
    }
}

/// Records come out in the order of the lines: a later record has a greater
/// line number.
pub proof fn lemma_line_numbers_ascend(
    path: Seq<char>,
    term: Seq<char>,
    lines: Seq<Option<Seq<char>>>,
    j: int,
    k: int,
)
    requires
        0 <= j < k < file_matches(path, term, lines).len(),
    ensures
        file_matches(path, term, lines)[j].line_number < file_matches(
            path,
            term,
            lines,
        )[k].line_number,
    decreases lines.len(),
{
    if lines.len() > 0 {
        let earlier = file_matches(path, term, lines.drop_last());
        if k < earlier.len() {
            lemma_line_numbers_ascend(path, term, lines.drop_last(), j, k);
        } else {
            lemma_record_is_hit(path, term, lines.drop_last(), j);
        }
    }
}

/// Matching is case-insensitive containment and nothing else: slot `i` of a
/// file has a record if and only if the line was decoded and its folded text
/// contains the folded term.
pub proof fn lemma_found_iff_folded_line_contains_folded_term(
    path: Seq<char>,
    term: Seq<char>,
    lines: Seq<Option<Seq<char>>>,
    i: int,
)
    requires
        0 <= i < lines.len(),
    ensures
        has_record_for(file_matches(path, term, lines), i) <==> (lines[i] matches Some(text)
            && occurs_in(lowercase(text), lowercase(term))),
{
    let records = file_matches(path, term, lines);
    if slot_hits(term, lines[i]) {
        lemma_hit_has_record(path, term, lines, i);
    }
    if has_record_for(records, i) {
        let k = choose|k: int| 0 <= k < records.len() && #[trigger] records[k].line_number == i + 1;
        lemma_record_is_hit(path, term, lines, k);
    }
}

/// The line numbers of a file's records are the 1-based positions of its
/// hitting slots, each once, in increasing order; each record holds the text
/// of its slot unchanged.
pub proof fn lemma_line_numbers_are_hit_positions(
    path: Seq<char>,
    term: Seq<char>,
    lines: Seq<Option<Seq<char>>>,
)
    ensures
        forall|k: int|
            0 <= k < file_matches(path, term, lines).len() ==> {
                let record = #[trigger] file_matches(path, term, lines)[k];
                &&& 1 <= record.line_number <= lines.len()
                &&& slot_hits(term, lines[record.line_number - 1])
                &&& lines[record.line_number - 1] == Some(record.line_content)
            },
        forall|j: int, k: int|
            0 <= j < k < file_matches(path, term, lines).len() ==> #[trigger] file_matches(
                path,
                term,
                lines,
            )[j].line_number < #[trigger] file_matches(path, term, lines)[k].line_number,
        forall|i: int|
            0 <= i < lines.len() && slot_hits(term, #[trigger] lines[i]) ==> has_record_for(
                file_matches(path, term, lines),
                i,
            ),
{
    let records = file_matches(path, term, lines);
    assert forall|k: int| 0 <= k < records.len() implies {
        let record = #[trigger] records[k];
        &&& 1 <= record.line_number <= lines.len()
        &&& slot_hits(term, lines[record.line_number - 1])
        &&& lines[record.line_number - 1] == Some(record.line_content)
    } by {
        lemma_record_is_hit(path, term, lines, k);
    }
    assert forall|j: int, k: int| 0 <= j < k < records.len() implies #[trigger] records[j].line_number
        < #[trigger] records[k].line_number by {
        lemma_line_numbers_ascend(path, term, lines, j, k);
    }
    assert forall|i: int| 0 <= i < lines.len() && slot_hits(term, #[trigger] lines[i]) implies has_record_for(
        records,
        i,
    ) by {
        lemma_hit_has_record(path, term, lines, i);
    }
}

/// A file gives exactly as many records as it has hitting slots.
pub proof fn lemma_one_record_per_hit(
    path: Seq<char>,
    term: Seq<char>,
    lines: Seq<Option<Seq<char>>>,
)
    ensures
        file_matches(path, term, lines).len() == hit_count(term, lines),
    decreases lines.len(),
{
    reveal(Seq::filter);
    if lines.len() > 0 {
        lemma_one_record_per_hit(path, term, lines.drop_last());
    }
}

/// The path only labels the records: under another path the same lines give
/// records with the same line numbers and the same texts.
pub proof fn lemma_path_only_labels(
    path: Seq<char>,
    other: Seq<char>,
    term: Seq<char>,
    lines: Seq<Option<Seq<char>>>,
)
    ensures
        file_matches(path, term, lines).len() == file_matches(other, term, lines).len(),
        forall|k: int|
            0 <= k < file_matches(path, term, lines).len() ==> {
                let here = #[trigger] file_matches(path, term, lines)[k];
                let there = file_matches(other, term, lines)[k];
                &&& here.file_path == path
                &&& there.file_path == other
                &&& here.line_number == there.line_number
                &&& here.line_content == there.line_content
            },
    decreases lines.len(),
{
    if lines.len() > 0 {
        lemma_path_only_labels(path, other, term, lines.drop_last());
        let earlier = file_matches(path, term, lines.drop_last());
        assert forall|k: int| 0 <= k < file_matches(path, term, lines).len() implies {
            let here = #[trigger] file_matches(path, term, lines)[k];
            let there = file_matches(other, term, lines)[k];
            &&& here.file_path == path
            &&& there.file_path == other
            &&& here.line_number == there.line_number
            &&& here.line_content == there.line_content
        } by {
            if k < earlier.len() {
                assert(file_matches(path, term, lines)[k] == earlier[k]);
            }
        }
    }
}

/// What a file's records are: a record is among them if and only if it
/// carries the file's path and the number and text of a line of the file that
/// is a hit.
pub proof fn lemma_record_iff_hitting_line(
    path: Seq<char>,
    term: Seq<char>,
    lines: Seq<Option<Seq<char>>>,
    record: MatchView,
)
    ensures
        file_matches(path, term, lines).contains(record) <==> {
            &&& record.file_path == path
            &&& 1 <= record.line_number <= lines.len()
            &&& lines[record.line_number - 1] == Some(record.line_content)
            &&& line_hits(term, record.line_content)
        },
{
    let records = file_matches(path, term, lines);
    if records.contains(record) {
        let k = choose|k: int| 0 <= k < records.len() && records[k] == record;
        lemma_record_is_hit(path, term, lines, k);
    }
    if record.file_path == path && 1 <= record.line_number <= lines.len() && lines[record.line_number
        - 1] == Some(record.line_content) && line_hits(term, record.line_content) {
        let i = record.line_number - 1;
        lemma_hit_has_record(path, term, lines, i);
        let k = choose|k: int| 0 <= k < records.len() && #[trigger] records[k].line_number == i + 1;
        lemma_record_is_hit(path, term, lines, k);
        assert(records[k] == record);
    }
}

} // verus!
