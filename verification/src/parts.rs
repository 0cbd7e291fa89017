//! Files that were split into parts: which parts there are, and what came of sending them.
//!
//! The list of parts is a text with a line `name (size): digest` for each part, among others.
use vstd::prelude::*;
use vstd::slice::slice_subrange;
use crate::send_session::{failure_text, Outcome};
use crate::string_map::{text_map, StringMap};
use crate::text::{
    chars_start_with, comes_before, find_last, from_chars, joined, last_index, lines, owned,
    split_lines, starts_with, text_before, to_chars, trim, trim_chars,
};

verus! {

/// Whether a line of the list stands for no part: it is blank, or belongs to a heading.
pub open spec fn is_heading(line: Seq<char>) -> bool {
    ||| line.len() == 0
    ||| "RIPEMD"@.is_prefix_of(line)
    ||| "Operation"@.is_prefix_of(line)
    ||| "Original"@.is_prefix_of(line)
    ||| "Parts"@.is_prefix_of(line)
    ||| "---"@.is_prefix_of(line)
}

/// The name and the digest in a line of the list: the digest follows the last colon, the name ends
/// before the last bracket that opens before the colon.
pub open spec fn part_in(line: Seq<char>) -> Option<(Seq<char>, Seq<char>)> {
    let line = trim(line);
    if is_heading(line) {
        None
    } else {
        match last_index(line, ':') {
            Some(colon) => match last_index(line.take(colon), '(') {
                Some(bracket) => Some((trim(line.take(bracket)), trim(line.skip(colon + 1)))),
                None => None,
            },
            None => None,
        }
    }
}

/// The digests of the parts in some lines, by name. Of two lines for one name the later one counts.
pub open spec fn parts_in(lines: Seq<Seq<char>>) -> Map<Seq<char>, Seq<char>>
    decreases lines.len(),
{
    if lines.len() == 0 {
        Map::empty()
    } else {
        match part_in(lines.last()) {
            Some((name, hash)) => parts_in(lines.drop_last()).insert(name, hash),
            None => parts_in(lines.drop_last()),
        }
    }
}

fn heading(line: &[char]) -> (r: bool)
    ensures
        r == is_heading(line@),
{
    line.len() == 0 || chars_start_with(line, to_chars("RIPEMD").as_slice()) || chars_start_with(
        line,
        to_chars("Operation").as_slice(),
    ) || chars_start_with(line, to_chars("Original").as_slice()) || chars_start_with(
        line,
        to_chars("Parts").as_slice(),
    ) || chars_start_with(line, to_chars("---").as_slice())
}

/// The name and the digest in a line of the list.
pub fn parse_part_line(line: &str) -> (r: Option<(String, String)>)
    ensures
        match part_in(line@) {
            Some((name, hash)) => r matches Some((n, h)) && n@ == name && h@ == hash,
            None => r is None,
        },
        forall|name: Seq<char>, size: Seq<char>, digest: Seq<char>|
            line@ == #[trigger] part_line(name, size, digest) && can_be_listed(name, size, digest)
                ==> (r matches Some((n, h)) && n@ == name && h@ == digest),
{
    proof {
        assert forall|name: Seq<char>, size: Seq<char>, digest: Seq<char>|
            line@ == #[trigger] part_line(name, size, digest) && can_be_listed(
                name,
                size,
                digest,
            ) implies part_in(line@) == Some((name, digest)) by {
            law_part_line_is_read(name, size, digest);
        }
    }
    let chars = to_chars(line);
    let line: &[char] = trim_chars(chars.as_slice());
    if heading(line) {
        return None;
    }
    match find_last(line, ':') {
        Some(colon) => {
            let before: &[char] = slice_subrange(line, 0, colon);
            assert(before@ =~= line@.take(colon as int));
            match find_last(before, '(') {
                Some(bracket) => {
                    let name: &[char] = slice_subrange(line, 0, bracket);
                    let end: usize = line.len();
                    let hash: &[char] = slice_subrange(line, colon + 1, end);
                    assert(name@ =~= line@.take(bracket as int));
                    assert(hash@ =~= line@.skip(colon + 1));
                    Some((from_chars(trim_chars(name)), from_chars(trim_chars(hash))))
                },
                None => None,
            }
        },
        None => None,
    }
}

/// The digests of the parts in the list, by name.
pub fn parse_ripemd_file(content: &str) -> (parts: StringMap<String>)
    ensures
        parts.wf(),
        text_map(parts@) == parts_in(lines(content@)),
{
    let all = split_lines(to_chars(content).as_slice());
    let mut parts: StringMap<String> = StringMap::new();
    let mut i: usize = 0;
    assert(text_map(parts@) =~= Map::empty());
    while i < all.len()
        invariant
            i <= all@.len(),
            crate::text::texts(all@) == lines(content@),
            parts.wf(),
            text_map(parts@) == parts_in(lines(content@).take(i as int)),
        decreases all.len() - i,
    {
        proof {
            let done = lines(content@).take(i + 1);
            assert(done.drop_last() =~= lines(content@).take(i as int));
            assert(done.last() == all@[i as int]@);
        }
        if let Some((name, hash)) = parse_part_line(all[i].as_str()) {
            let ghost before = parts@;
            parts.insert(name, hash);
            assert(text_map(parts@) =~= text_map(before).insert(name@, hash@));
        }
        i = i + 1;
    }
    assert(lines(content@).take(i as int) =~= lines(content@));
    parts
}

// ---------------------------------------------------------------------------------------------
// Choosing the parts
// ---------------------------------------------------------------------------------------------

/// What a folder holds.
pub struct FolderEntry {
    pub name: String,
    pub path: String,
    pub is_file: bool,
}

/// A part that is to be sent.
pub struct PartFile {
    pub name: String,
    pub expected_hash: String,
    pub path: String,
}

/// A part that is to be sent, as a value.
pub struct Part {
    pub name: Seq<char>,
    pub expected_hash: Seq<char>,
    pub path: Seq<char>,
}

impl View for PartFile {
    type V = Part;

    open spec fn view(&self) -> Part {
        Part { name: self.name@, expected_hash: self.expected_hash@, path: self.path@ }
    }
}

/// The parts as values.
pub open spec fn parts_view(parts: Seq<PartFile>) -> Seq<Part> {
    parts.map_values(|part: PartFile| part@)
}

/// Whether an entry is a part: a file whose name starts with the prefix and is in the list.
pub open spec fn is_part(
    entry: FolderEntry,
    prefix: Seq<char>,
    expected: Map<Seq<char>, Seq<char>>,
) -> bool {
    entry.is_file && prefix.is_prefix_of(entry.name@) && expected.contains_key(entry.name@)
}

/// The parts among some entries, in their order.
pub open spec fn parts_among(
    entries: Seq<FolderEntry>,
    prefix: Seq<char>,
    expected: Map<Seq<char>, Seq<char>>,
) -> Seq<Part>
    decreases entries.len(),
{
    if entries.len() == 0 {
        Seq::empty()
    } else {
        let before = parts_among(entries.drop_last(), prefix, expected);
        let entry = entries.last();
        if is_part(entry, prefix, expected) {
            before.push(
                Part {
                    name: entry.name@,
                    expected_hash: expected[entry.name@],
                    path: entry.path@,
                },
            )
        } else {
            before
        }
    }
}

/// Whether parts stand in the order of their names.
pub open spec fn by_name(parts: Seq<Part>) -> bool {
    forall|i: int, j: int|
        #![trigger parts[i], parts[j]]
        0 <= i < j < parts.len() ==> !text_before(parts[j].name, parts[i].name)
}

/// The parts of one name, in order.
pub open spec fn named(parts: Seq<Part>, name: Seq<char>) -> Seq<Part>
    decreases parts.len(),
{
    if parts.len() == 0 {
        Seq::empty()
    } else if parts.last().name == name {
        named(parts.drop_last(), name).push(parts.last())
    } else {
        named(parts.drop_last(), name)
    }
}

/// Whether `sorted` holds the parts in `parts` in the order of their names, those of one name in the
/// order in which they stand in `parts`.
pub open spec fn stably_sorted(sorted: Seq<Part>, parts: Seq<Part>) -> bool {
    by_name(sorted) && forall|name: Seq<char>| #[trigger] named(sorted, name) == named(parts, name)
}

proof fn lemma_named_insert(parts: Seq<Part>, at: int, part: Part, name: Seq<char>)
    requires
        0 <= at <= parts.len(),
        forall|i: int| at <= i < parts.len() ==> (#[trigger] parts[i]).name != part.name,
    ensures
        named(parts.insert(at, part), name) == if part.name == name {
            named(parts, name).push(part)
        } else {
            named(parts, name)
        },
    decreases parts.len(),
{
    let after = parts.insert(at, part);
    if at == parts.len() {
        assert(after.drop_last() =~= parts);
    } else {
        assert(after.drop_last() =~= parts.drop_last().insert(at, part));
        assert(after.last() == parts[parts.len() - 1]);
        assert forall|i: int| at <= i < parts.drop_last().len() implies (
        #[trigger] parts.drop_last()[i]).name != part.name by {
            assert(parts.drop_last()[i] == parts[i]);
        }
        lemma_named_insert(parts.drop_last(), at, part, name);
    }
}

proof fn lemma_sorted_insert(parts: Seq<Part>, at: int, part: Part)
    requires
        by_name(parts),
        0 <= at <= parts.len(),
        forall|i: int| 0 <= i < at ==> !text_before(part.name, (#[trigger] parts[i]).name),
        at < parts.len() ==> text_before(part.name, parts[at].name),
    ensures
        by_name(parts.insert(at, part)),
        forall|i: int| at <= i < parts.len() ==> (#[trigger] parts[i]).name != part.name,
{
    assert forall|i: int| at <= i < parts.len() implies text_before(
        part.name,
        (#[trigger] parts[i]).name,
    ) by {
        if i > at {
            crate::text::lemma_before_total(parts[at].name, parts[i].name);
            if text_before(parts[at].name, parts[i].name) {
                crate::text::lemma_before_transitive(part.name, parts[at].name, parts[i].name);
            }
        }
    }
    assert forall|i: int| at <= i < parts.len() implies (#[trigger] parts[i]).name
        != part.name by {
        crate::text::lemma_before_irreflexive(part.name);
    }
    let after = parts.insert(at, part);
    assert forall|i: int, j: int| #![trigger after[i], after[j]]
        0 <= i < j < after.len() implies !text_before(after[j].name, after[i].name) by {
        let a = if i < at { i } else { i - 1 };
        let b = if j < at { j } else { j - 1 };
        if i != at && j != at {
            assert(after[i] == parts[a] && after[j] == parts[b]);
        } else if i == at {
            assert(after[j] == parts[b]);
            if text_before(parts[b].name, part.name) {
                crate::text::lemma_before_transitive(part.name, parts[b].name, part.name);
                crate::text::lemma_before_irreflexive(part.name);
            }
        } else {
            assert(after[i] == parts[a]);
        }
    }
}

fn insert_by_name(parts: &mut Vec<PartFile>, part: PartFile)
    requires
        by_name(parts_view(old(parts)@)),
    ensures
        by_name(parts_view(final(parts)@)),
        forall|name: Seq<char>| #[trigger]
            named(parts_view(final(parts)@), name) == if part@.name == name {
                named(parts_view(old(parts)@), name).push(part@)
            } else {
                named(parts_view(old(parts)@), name)
            },
        final(parts)@.len() == old(parts)@.len() + 1,
{
    let ghost before = parts_view(parts@);
    let mut at: usize = 0;
    while at < parts.len() && !comes_before(part.name.as_str(), parts[at].name.as_str())
        invariant
            at <= parts@.len(),
            before == parts_view(parts@),
            forall|i: int| 0 <= i < at ==> !text_before(part@.name, (#[trigger] before[i]).name),
        decreases parts.len() - at,
    {
        assert(before[at as int] == parts@[at as int]@);
        at = at + 1;
    }
    proof {
        if at < parts@.len() {
            assert(before[at as int] == parts@[at as int]@);
        }
        lemma_sorted_insert(before, at as int, part@);
        assert forall|name: Seq<char>| #[trigger]
            named(before.insert(at as int, part@), name) == if part@.name == name {
                named(before, name).push(part@)
            } else {
                named(before, name)
            } by {
            lemma_named_insert(before, at as int, part@, name);
        }
    }
    let ghost value = part@;
    parts.insert(at, part);
    assert(parts_view(parts@) =~= before.insert(at as int, value));
}

/// The parts that are to be sent, in the order of their names. An empty list of parts is refused, and
/// so is a folder without parts.
pub fn select_parts(
    entries: &Vec<FolderEntry>,
    prefix: &str,
    expected: &StringMap<String>,
) -> (result: Result<Vec<PartFile>, String>)
    requires
        expected.wf(),
    ensures
        ({
            let among = parts_among(entries@, prefix@, text_map(expected@));
            match result {
                Ok(parts) => {
                    &&& expected@ != Map::<Seq<char>, String>::empty()
                    &&& among.len() > 0
                    &&& stably_sorted(parts_view(parts@), among)
                    &&& parts@.len() == among.len()
                },
                Err(e) => if expected@ == Map::<Seq<char>, String>::empty() {
                    e@ == "No parts found in ripemd-160.txt"@
                } else {
                    &&& among.len() == 0
                    &&& e@ == "No files found matching prefix '"@ + prefix@ + "'"@
                },
            }
        }),
{
    if expected.is_empty() {
        return Err(owned("No parts found in ripemd-160.txt"));
    }
    let mut parts: Vec<PartFile> = Vec::new();
    let mut i: usize = 0;
    assert(parts_view(parts@) =~= Seq::empty());
    while i < entries.len()
        invariant
            i <= entries@.len(),
            expected.wf(),
            stably_sorted(
                parts_view(parts@),
                parts_among(entries@.take(i as int), prefix@, text_map(expected@)),
            ),
            parts@.len() == parts_among(
                entries@.take(i as int),
                prefix@,
                text_map(expected@),
            ).len(),
        decreases entries.len() - i,
    {
        let entry = &entries[i];
        let ghost before = parts_among(entries@.take(i as int), prefix@, text_map(expected@));
        proof {
            assert(entries@.take(i + 1).drop_last() =~= entries@.take(i as int));
            assert(entries@.take(i + 1).last() == *entry);
        }
        if entry.is_file && starts_with(entry.name.as_str(), prefix) {
            if let Some(hash) = expected.get(entry.name.as_str()) {
                let part = PartFile {
                    name: owned(entry.name.as_str()),
                    expected_hash: owned(hash.as_str()),
                    path: owned(entry.path.as_str()),
                };
                let ghost value = part@;
                insert_by_name(&mut parts, part);
                proof {
                    let after = parts_among(entries@.take(i + 1), prefix@, text_map(expected@));
                    assert(after == before.push(value));
                    assert forall|name: Seq<char>| #[trigger]
                        named(parts_view(parts@), name) == named(after, name) by {
                        assert(after.drop_last() =~= before);
                    }
                }
            }
        }
        i = i + 1;
    }
    assert(entries@.take(i as int) =~= entries@);
    if parts.len() == 0 {
        let mut e = joined("No files found matching prefix '", prefix);
        e.push_str("'");
        return Err(e);
    }
    Ok(parts)
}

/// Sorting loses no part and adds none.
pub proof fn law_sorting_keeps_the_parts(sorted: Seq<Part>, parts: Seq<Part>)
    requires
        stably_sorted(sorted, parts),
    ensures
        forall|part: Part| sorted.contains(part) <==> parts.contains(part),
{
    assert forall|part: Part| sorted.contains(part) <==> parts.contains(part) by {
        lemma_named_holds(sorted, part);
        lemma_named_holds(parts, part);
        assert(named(sorted, part.name) == named(parts, part.name));
    }
}

proof fn lemma_named_holds(parts: Seq<Part>, part: Part)
    ensures
        named(parts, part.name).contains(part) <==> parts.contains(part),
    decreases parts.len(),
{
    if parts.len() > 0 {
        let rest = parts.drop_last();
        let last = parts.last();
        lemma_named_holds(rest, part);
        assert(parts =~= rest.push(last));
        if parts.contains(part) {
            let i = choose|i: int| 0 <= i < parts.len() && parts[i] == part;
            if i < rest.len() {
                assert(rest[i] == part);
            }
        }
        if rest.contains(part) {
            let i = choose|i: int| 0 <= i < rest.len() && rest[i] == part;
            assert(parts[i] == part);
        }
        let before = named(rest, part.name);
        let after = named(parts, part.name);
        if last.name == part.name {
            assert(after == before.push(last));
            if before.contains(part) {
                let i = choose|i: int| 0 <= i < before.len() && before[i] == part;
                assert(after[i] == part);
            }
            if last == part {
                assert(after[before.len() as int] == part);
                assert(parts[parts.len() - 1] == part);
            }
            if after.contains(part) {
                let i = choose|i: int| 0 <= i < after.len() && after[i] == part;
                if i < before.len() {
                    assert(before[i] == part);
                }
            }
        }
    }
}

// ---------------------------------------------------------------------------------------------
// What came of it
// ---------------------------------------------------------------------------------------------

/// A part that was not sent.
pub struct FailedPart {
    /// Which part it is, counted from one.
    pub number: usize,
    pub filename: String,
    pub error: String,
}

/// A part that was not sent, as a value.
pub struct Failure {
    pub number: nat,
    pub filename: Seq<char>,
    pub error: Seq<char>,
}

impl View for FailedPart {
    type V = Failure;

    open spec fn view(&self) -> Failure {
        Failure { number: self.number as nat, filename: self.filename@, error: self.error@ }
    }
}

/// What came of sending parts.
pub struct PartsSummary {
    pub successful_parts: usize,
    pub failed_parts: Vec<FailedPart>,
}

/// What came of sending parts, as a value.
pub struct Summary {
    pub successful: nat,
    pub failed: Seq<Failure>,
}

impl View for PartsSummary {
    type V = Summary;

    open spec fn view(&self) -> Summary {
        Summary {
            successful: self.successful_parts as nat,
            failed: self.failed_parts@.map_values(|part: FailedPart| part@),
        }
    }
}

/// The summary with one more part. What is not a success is listed with its reason.
pub open spec fn summed(
    summary: Summary,
    number: nat,
    filename: Seq<char>,
    outcome: Outcome,
    detail: Seq<char>,
) -> Summary {
    if outcome is Match {
        Summary { successful: summary.successful + 1, ..summary }
    } else {
        Summary {
            failed: summary.failed.push(
                Failure { number, filename, error: failure_text(outcome, detail) },
            ),
            ..summary
        }
    }
}

/// The summary of parts that were sent one after the other.
pub open spec fn summary_of(parts: Seq<(Seq<char>, Outcome, Seq<char>)>) -> Summary
    decreases parts.len(),
{
    if parts.len() == 0 {
        Summary { successful: 0, failed: Seq::empty() }
    } else {
        let (filename, outcome, detail) = parts.last();
        summed(summary_of(parts.drop_last()), parts.len(), filename, outcome, detail)
    }
}

impl PartsSummary {
    /// Nothing was sent yet.
    pub fn new() -> (summary: PartsSummary)
        ensures
            summary@ == (Summary { successful: 0, failed: Seq::empty() }),
    {
        let summary = PartsSummary { successful_parts: 0, failed_parts: Vec::new() };
        assert(summary@.failed =~= Seq::empty());
        summary
    }

    /// A part was sent, or not.
    pub fn record(&mut self, number: usize, filename: &str, outcome: Outcome, detail: &str)
        requires
            outcome is Match ==> old(self)@.successful < usize::MAX,
        ensures
            final(self)@ == summed(old(self)@, number as nat, filename@, outcome, detail@),
    {
        if let Outcome::Match = outcome {
            self.successful_parts = self.successful_parts + 1;
            assert(self@.failed =~= old(self)@.failed);
        } else {
            let error = outcome.message(detail);
            self.record_error(number, filename, error);
        }
    }

    /// A part could not be sent, for a reason outside the transfer.
    pub fn record_error(&mut self, number: usize, filename: &str, error: String)
        ensures
            final(self)@ == (Summary {
                failed: old(self)@.failed.push(
                    Failure { number: number as nat, filename: filename@, error: error@ },
                ),
                ..old(self)@
            }),
    {
        let part = FailedPart { number, filename: owned(filename), error };
        let ghost value = part@;
        self.failed_parts.push(part);
        assert(self@.failed =~= old(self)@.failed.push(value));
    }
}

/// Whether there is a pause after a part, counted from zero: not after the last one.
pub fn pause_after(part: usize, parts: usize) -> (r: bool)
    ensures
        r == (part + 1 < parts),
{
    parts > 0 && part < parts - 1
}

/// Every part is counted once: as sent, or as failed with its number and reason.
pub proof fn law_summary_counts_every_part(parts: Seq<(Seq<char>, Outcome, Seq<char>)>)
    ensures
        summary_of(parts).successful + summary_of(parts).failed.len() == parts.len(),
        forall|i: int|
            0 <= i < parts.len() && !((#[trigger] parts[i]).1 is Match) ==> summary_of(
                parts,
            ).failed.contains(
                Failure {
                    number: (i + 1) as nat,
                    filename: parts[i].0,
                    error: failure_text(parts[i].1, parts[i].2),
                },
            ),
    decreases parts.len(),
{
    if parts.len() > 0 {
        let rest = parts.drop_last();
        law_summary_counts_every_part(rest);
        let before = summary_of(rest).failed;
        let after = summary_of(parts).failed;
        assert forall|i: int| 0 <= i < parts.len() && !((#[trigger] parts[i]).1 is Match) implies
            after.contains(
            Failure {
                number: (i + 1) as nat,
                filename: parts[i].0,
                error: failure_text(parts[i].1, parts[i].2),
            },
        ) by {
            let failure = Failure {
                number: (i + 1) as nat,
                filename: parts[i].0,
                error: failure_text(parts[i].1, parts[i].2),
            };
            if i < rest.len() {
                assert(rest[i] == parts[i]);
                assert(before.contains(failure));
                let k = choose|k: int| 0 <= k < before.len() && before[k] == failure;
                assert(after[k] == failure);
            } else {
                assert(after[before.len() as int] == failure);
            }
        }
    }
}

// ---------------------------------------------------------------------------------------------
// What holds of the list
// ---------------------------------------------------------------------------------------------

/// The line of a part in the list.
pub open spec fn part_line(name: Seq<char>, size: Seq<char>, digest: Seq<char>) -> Seq<char> {
    name + " ("@ + size + "): "@ + digest
}

/// Whether a line starts like a heading.
pub open spec fn starts_like_heading(line: Seq<char>) -> bool {
    "RIPEMD"@.is_prefix_of(line) || "Operation"@.is_prefix_of(line) || "Original"@.is_prefix_of(line)
        || "Parts"@.is_prefix_of(line) || "---"@.is_prefix_of(line)
}

/// Whether a part can stand in the list: name and digest have no white space around them, the digest is
/// there and has no colon, the size has no bracket that opens, and the line is not taken for a heading.
pub open spec fn can_be_listed(name: Seq<char>, size: Seq<char>, digest: Seq<char>) -> bool {
    &&& crate::text_laws::no_white_around(name)
    &&& crate::text_laws::no_white_around(digest)
    &&& digest.len() > 0
    &&& !digest.contains(':')
    &&& !size.contains('(')
    &&& !starts_like_heading(part_line(name, size, digest))
}

/// A line with a bracket and a colon behind it, of which the colon is the last one and the bracket the last
/// one before it, is a part unless it is a heading: its name is what stands before the bracket, its digest
/// what follows the colon. White space around the line, the name and the digest does not matter.
pub proof fn law_line_with_bracket_and_colon(
    before: Seq<char>,
    name: Seq<char>,
    size: Seq<char>,
    digest: Seq<char>,
    after: Seq<char>,
)
    requires
        crate::text_laws::all_white(before),
        crate::text_laws::all_white(after),
        !size.contains('('),
        !digest.contains(':'),
        ({
            let line = name + "("@ + size + ":"@ + digest;
            crate::text_laws::no_white_around(line) && !starts_like_heading(line)
        }),
    ensures
        part_in(before + (name + "("@ + size + ":"@ + digest) + after) == Some(
            (trim(name), trim(digest)),
        ),
{
    reveal_strlit("(");
    reveal_strlit(":");
    assert("("@ =~= seq!['(']);
    assert(":"@ =~= seq![':']);
    let line = name + "("@ + size + ":"@ + digest;
    crate::text_laws::law_trimming(before, line, after);
    let front = name + seq!['('] + size;
    assert(line =~= front + seq![':'] + digest);
    crate::text_laws::law_position_of_a_character(front, ':', digest);
    assert(line.take(front.len() as int) =~= front);
    crate::text_laws::law_position_of_a_character(name, '(', size);
    assert(line.take(name.len() as int) =~= name);
    assert(line.skip(front.len() as int + 1) =~= digest);
}

/// What is written in the list is what is read: the line of a part gives its name and its digest, whole
/// and unchanged.
pub proof fn law_part_line_is_read(name: Seq<char>, size: Seq<char>, digest: Seq<char>)
    requires
        can_be_listed(name, size, digest),
    ensures
        part_in(part_line(name, size, digest)) == Some((name, digest)),
{
    reveal_strlit("(");
    reveal_strlit(":");
    reveal_strlit(" (");
    reveal_strlit("): ");
    let none = Seq::<char>::empty();
    let blank = seq![' '];
    let whole = part_line(name, size, digest);
    let inside = size + seq![')'];
    let value = blank + digest;
    assert forall|i: int| 0 <= i < inside.len() implies inside[i] != '(' by {
        if i < size.len() {
            assert(size.contains(size[i]));
        }
    }
    assert forall|i: int| 0 <= i < value.len() implies value[i] != ':' by {
        if i > 0 {
            assert(digest.contains(digest[i - 1]));
        }
    }
    assert(crate::text_laws::all_white(blank));
    crate::text_laws::law_trimming(blank, digest, none);
    assert(blank + digest + none =~= value);
    if name.len() > 0 {
        let front = name + blank;
        let line = front + "("@ + inside + ":"@ + value;
        assert(line =~= whole);
        assert(none + line + none =~= whole);
        assert(line[0] == name[0]);
        assert(line.last() == digest.last());
        crate::text_laws::law_trimming(none, name, blank);
        assert(none + name + blank =~= front);
        law_line_with_bracket_and_colon(none, front, inside, value, none);
    } else {
        let line = none + "("@ + inside + ":"@ + value;
        assert(blank + line + none =~= whole);
        assert(line[0] == '(');
        assert(line.last() == digest.last());
        lemma_no_heading(line);
        crate::text_laws::law_trimming(none, none, none);
        assert(none + none + none =~= none);
        law_line_with_bracket_and_colon(blank, none, inside, value, none);
        assert(name =~= none);
    }
}

proof fn lemma_no_heading(line: Seq<char>)
    requires
        line.len() > 0,
        line[0] == '(',
    ensures
        !starts_like_heading(line),
{
    reveal_strlit("RIPEMD");
    reveal_strlit("Operation");
    reveal_strlit("Original");
    reveal_strlit("Parts");
    reveal_strlit("---");
    assert("RIPEMD"@[0] == 'R');
    assert("Operation"@[0] == 'O');
    assert("Original"@[0] == 'O');
    assert("Parts"@[0] == 'P');
    assert("---"@[0] == '-');
    if "RIPEMD"@.is_prefix_of(line) {
        assert(line.subrange(0, 6)[0] == line[0]);
    }
    if "Operation"@.is_prefix_of(line) {
        assert(line.subrange(0, 9)[0] == line[0]);
    }
    if "Original"@.is_prefix_of(line) {
        assert(line.subrange(0, 8)[0] == line[0]);
    }
    if "Parts"@.is_prefix_of(line) {
        assert(line.subrange(0, 5)[0] == line[0]);
    }
    if "---"@.is_prefix_of(line) {
        assert(line.subrange(0, 3)[0] == line[0]);
    }
}

/// A line stands for no part if it is blank, starts like a heading, has no colon, or has no bracket that
/// opens before its last colon.
pub proof fn law_lines_without_part(
    before: Seq<char>,
    line: Seq<char>,
    after: Seq<char>,
    head: Seq<char>,
    tail: Seq<char>,
)
    requires
        crate::text_laws::all_white(before),
        crate::text_laws::all_white(after),
        crate::text_laws::no_white_around(line),
    ensures
        line.len() == 0 ==> part_in(before + line + after) is None,
        starts_like_heading(line) ==> part_in(before + line + after) is None,
        !line.contains(':') ==> part_in(before + line + after) is None,
        line == head + ":"@ + tail && !tail.contains(':') && !head.contains('(') ==> part_in(
            before + line + after,
        ) is None,
{
    reveal_strlit(":");
    assert(":"@ =~= seq![':']);
    crate::text_laws::law_trimming(before, line, after);
    crate::text_laws::law_position_of_a_character(line, ':', Seq::empty());
    if line == head + ":"@ + tail && !tail.contains(':') && !head.contains('(') {
        crate::text_laws::law_position_of_a_character(head, ':', tail);
        assert(line.take(head.len() as int) =~= head);
        crate::text_laws::law_position_of_a_character(head, '(', tail);
    }
}

/// Whether a line is that of the part with a name.
pub open spec fn line_names(line: Seq<char>, name: Seq<char>) -> bool {
    match part_in(line) {
        Some((n, _)) => n == name,
        None => false,
    }
}

/// Of every part that some line names the digest is known, namely that in the last line that names it;
/// of no other part one is.
pub proof fn law_last_line_of_a_part_counts(
    lines: Seq<Seq<char>>,
    i: int,
    name: Seq<char>,
    hash: Seq<char>,
)
    ensures
        0 <= i < lines.len() && part_in(lines[i]) == Some((name, hash)) && (forall|j: int|
            i < j < lines.len() ==> !line_names(#[trigger] lines[j], name)) ==> parts_in(
            lines,
        ).contains_key(name) && parts_in(lines)[name] == hash,
        (forall|j: int| 0 <= j < lines.len() ==> !line_names(#[trigger] lines[j], name))
            ==> !parts_in(lines).contains_key(name),
    decreases lines.len(),
{
    if lines.len() > 0 {
        let rest = lines.drop_last();
        law_last_line_of_a_part_counts(rest, i, name, hash);
        let last = lines.len() - 1;
        assert(lines.last() == lines[last]);
        assert forall|j: int| 0 <= j < rest.len() implies rest[j] == lines[j] by {}
        if forall|j: int| i < j < lines.len() ==> !line_names(#[trigger] lines[j], name) {
            if i < last {
                assert(!line_names(lines[last], name));
            }
            assert forall|j: int| i < j < rest.len() && i >= 0 implies !line_names(
                #[trigger] rest[j],
                name,
            ) by {
                assert(!line_names(lines[j], name));
            }
        }
        if forall|j: int| 0 <= j < lines.len() ==> !line_names(#[trigger] lines[j], name) {
            assert(!line_names(lines[last], name));
            assert forall|j: int| 0 <= j < rest.len() implies !line_names(
                #[trigger] rest[j],
                name,
            ) by {
                assert(!line_names(lines[j], name));
            }
        }
    }
}

/// The lines of some parts, each with its name, its size and its digest.
pub open spec fn part_lines(parts: Seq<(Seq<char>, Seq<char>, Seq<char>)>) -> Seq<Seq<char>> {
    parts.map_values(|p: (Seq<char>, Seq<char>, Seq<char>)| part_line(p.0, p.1, p.2))
}

/// A list that is written line by line gives the digest of every part in it, where no part is in it twice.
pub proof fn law_list_is_read(parts: Seq<(Seq<char>, Seq<char>, Seq<char>)>, i: int)
    requires
        0 <= i < parts.len(),
        forall|j: int|
            0 <= j < parts.len() ==> can_be_listed(
                (#[trigger] parts[j]).0,
                parts[j].1,
                parts[j].2,
            ),
        forall|j: int| 0 <= j < parts.len() ==> !part_lines(parts)[j].contains('\n'),
        forall|j: int| 0 <= j < parts.len() && j != i ==> (#[trigger] parts[j]).0 != parts[i].0,
    ensures
        ({
            let read = parts_in(lines(crate::text_laws::with_line_feeds(part_lines(parts))));
            read.contains_key(parts[i].0) && read[parts[i].0] == parts[i].2
        }),
{
    let all = part_lines(parts);
    assert forall|j: int| 0 <= j < all.len() implies crate::text_laws::is_line(
        #[trigger] all[j],
    ) by {
        let (name, size, digest) = parts[j];
        assert(can_be_listed(parts[j].0, parts[j].1, parts[j].2));
        assert(all[j] == part_line(name, size, digest));
        assert(all[j].last() == digest.last());
        assert(!part_lines(parts)[j].contains('\n'));
    }
    crate::text_laws::law_lines_round_trip(all);
    assert forall|j: int| 0 <= j < all.len() implies part_in(#[trigger] all[j]) == Some(
        (parts[j].0, parts[j].2),
    ) by {
        assert(can_be_listed(parts[j].0, parts[j].1, parts[j].2));
        law_part_line_is_read(parts[j].0, parts[j].1, parts[j].2);
    }
    law_last_line_of_a_part_counts(all, i, parts[i].0, parts[i].2);
    assert(part_in(all[i]) == Some((parts[i].0, parts[i].2)));
}

// ---------------------------------------------------------------------------------------------
// What holds of the choice and of the summary
// ---------------------------------------------------------------------------------------------

/// The part that an entry of the folder is, with the digest from the list.
pub open spec fn part_from(entry: FolderEntry, digest: Seq<char>) -> Part {
    Part { name: entry.name@, expected_hash: digest, path: entry.path@ }
}

/// Whatever stands before and after it, a file whose name starts with the prefix and is in the list is
/// among the parts, with its path and the digest from the list; anything else is not.
pub proof fn law_parts_of_a_folder(
    first: Seq<FolderEntry>,
    second: Seq<FolderEntry>,
    entry: FolderEntry,
    prefix: Seq<char>,
    expected: Map<Seq<char>, Seq<char>>,
)
    ensures
        parts_among(first + second, prefix, expected) == parts_among(first, prefix, expected)
            + parts_among(second, prefix, expected),
        parts_among(seq![entry], prefix, expected) == if entry.is_file && prefix.is_prefix_of(
            entry.name@,
        ) && expected.dom().contains(entry.name@) {
            seq![part_from(entry, expected[entry.name@])]
        } else {
            Seq::empty()
        },
        parts_among(Seq::empty(), prefix, expected) == Seq::<Part>::empty(),
    decreases second.len(),
{
    reveal_with_fuel(parts_among, 2);
    assert(seq![entry].drop_last() =~= Seq::empty());
    assert(seq![entry].last() == entry);
    assert(Seq::<Part>::empty().push(part_from(entry, expected[entry.name@])) =~= seq![
        part_from(entry, expected[entry.name@]),
    ]);
    let (a, b) = (
        parts_among(first, prefix, expected),
        parts_among(second, prefix, expected),
    );
    if second.len() > 0 {
        law_parts_of_a_folder(first, second.drop_last(), entry, prefix, expected);
        assert((first + second).drop_last() =~= first + second.drop_last());
        assert(parts_among(first + second, prefix, expected) =~= a + b);
    } else {
        assert(first + second =~= first);
        assert(a + b =~= a);
    }
}

proof fn lemma_chosen(
    entries: Seq<FolderEntry>,
    prefix: Seq<char>,
    expected: Map<Seq<char>, Seq<char>>,
    part: Part,
)
    ensures
        parts_among(entries, prefix, expected).contains(part) <==> exists|k: int|
            0 <= k < entries.len() && is_part(#[trigger] entries[k], prefix, expected)
                && part_from(entries[k], expected[entries[k].name@]) == part,
    decreases entries.len(),
{
    let all = parts_among(entries, prefix, expected);
    if entries.len() > 0 {
        let rest = entries.drop_last();
        let last = entries.last();
        let before = parts_among(rest, prefix, expected);
        lemma_chosen(rest, prefix, expected, part);
        if before.contains(part) {
            let i = choose|i: int| 0 <= i < before.len() && before[i] == part;
            assert(all[i] == part);
            let k = choose|k: int|
                0 <= k < rest.len() && is_part(#[trigger] rest[k], prefix, expected) && part_from(
                    rest[k],
                    expected[rest[k].name@],
                ) == part;
            assert(entries[k] == rest[k]);
        }
        if is_part(last, prefix, expected) {
            assert(all[before.len() as int] == part_from(last, expected[last.name@]));
            assert(entries[entries.len() - 1] == last);
            if all.contains(part) && !before.contains(part) {
                let i = choose|i: int| 0 <= i < all.len() && all[i] == part;
                if i < before.len() {
                    assert(before[i] == part);
                }
            }
        }
        if exists|k: int|
            0 <= k < entries.len() && is_part(#[trigger] entries[k], prefix, expected) && part_from(
                entries[k],
                expected[entries[k].name@],
            ) == part {
            let k = choose|k: int|
                0 <= k < entries.len() && is_part(#[trigger] entries[k], prefix, expected)
                    && part_from(entries[k], expected[entries[k].name@]) == part;
            if k < rest.len() {
                assert(rest[k] == entries[k]);
                assert(before.contains(part));
            }
        }
    }
}

/// The parts that are sent are the files of the folder whose names start with the prefix and are in the
/// list, with their paths and the digests from the list: all of them and nothing else, in ascending order
/// of their names.
pub proof fn law_chosen_parts(
    entries: Seq<FolderEntry>,
    prefix: Seq<char>,
    expected: Map<Seq<char>, Seq<char>>,
    sorted: Seq<Part>,
)
    requires
        stably_sorted(sorted, parts_among(entries, prefix, expected)),
    ensures
        forall|k: int|
            0 <= k < entries.len() && (#[trigger] entries[k]).is_file && prefix.is_prefix_of(
                entries[k].name@,
            ) && expected.dom().contains(entries[k].name@) ==> sorted.contains(
                part_from(entries[k], expected[entries[k].name@]),
            ),
        forall|i: int|
            0 <= i < sorted.len() ==> {
                &&& prefix.is_prefix_of((#[trigger] sorted[i]).name)
                &&& expected.dom().contains(sorted[i].name)
                &&& sorted[i].expected_hash == expected[sorted[i].name]
                &&& exists|k: int|
                    0 <= k < entries.len() && (#[trigger] entries[k]).is_file && entries[k].name@
                        == sorted[i].name && entries[k].path@ == sorted[i].path
            },
        forall|i: int, j: int|
            #![trigger sorted[i], sorted[j]]
            0 <= i < j < sorted.len() ==> sorted[i].name == sorted[j].name || text_before(
                sorted[i].name,
                sorted[j].name,
            ),
{
    law_sorting_keeps_the_parts(sorted, parts_among(entries, prefix, expected));
    let among = parts_among(entries, prefix, expected);
    assert forall|k: int|
        0 <= k < entries.len() && (#[trigger] entries[k]).is_file && prefix.is_prefix_of(
            entries[k].name@,
        ) && expected.dom().contains(entries[k].name@) implies sorted.contains(
        part_from(entries[k], expected[entries[k].name@]),
    ) by {
        lemma_chosen(
            entries,
            prefix,
            expected,
            part_from(entries[k], expected[entries[k].name@]),
        );
        assert(is_part(entries[k], prefix, expected));
    }
    assert forall|i: int| 0 <= i < sorted.len() implies ({
        &&& prefix.is_prefix_of((#[trigger] sorted[i]).name)
        &&& expected.dom().contains(sorted[i].name)
        &&& sorted[i].expected_hash == expected[sorted[i].name]
        &&& exists|k: int|
            0 <= k < entries.len() && (#[trigger] entries[k]).is_file && entries[k].name@
                == sorted[i].name && entries[k].path@ == sorted[i].path
    }) by {
        assert(sorted.contains(sorted[i]));
        lemma_chosen(entries, prefix, expected, sorted[i]);
        let k = choose|k: int|
            0 <= k < entries.len() && is_part(#[trigger] entries[k], prefix, expected) && part_from(
                entries[k],
                expected[entries[k].name@],
            ) == sorted[i];
        assert(entries[k].is_file);
    }
    assert forall|i: int, j: int| #![trigger sorted[i], sorted[j]]
        0 <= i < j < sorted.len() implies sorted[i].name == sorted[j].name || text_before(
        sorted[i].name,
        sorted[j].name,
    ) by {
        crate::text::lemma_before_total(sorted[i].name, sorted[j].name);
    }
}

/// The parts of one name are those that have it, in their order.
pub proof fn law_parts_of_one_name(parts: Seq<Part>, name: Seq<char>)
    ensures
        named(parts, name) == parts.filter(|part: Part| part.name == name),
    decreases parts.len(),
{
    reveal(Seq::filter);
    if parts.len() > 0 {
        law_parts_of_one_name(parts.drop_last(), name);
    }
}

/// One more part that was sent is counted, and one that was not is listed last, with its number, its name
/// and the reason. Nothing that was counted or listed before changes.
pub proof fn law_one_more_part(
    summary: Summary,
    number: nat,
    filename: Seq<char>,
    outcome: Outcome,
    detail: Seq<char>,
)
    ensures
        ({
            let after = summed(summary, number, filename, outcome, detail);
            &&& outcome == Outcome::Match ==> after.successful == summary.successful + 1
                && after.failed == summary.failed
            &&& outcome != Outcome::Match ==> {
                &&& after.successful == summary.successful
                &&& after.failed.len() == summary.failed.len() + 1
                &&& after.failed.drop_last() == summary.failed
                &&& after.failed.last().number == number
                &&& after.failed.last().filename == filename
                &&& after.failed.last().error == failure_text(outcome, detail)
            }
        }),
{
    let after = summed(summary, number, filename, outcome, detail);
    if outcome != Outcome::Match {
        assert(after.failed.drop_last() =~= summary.failed);
    }
}

/// What parts and summaries stand for is what they hold.
pub proof fn law_parts_are_seen_whole(part: PartFile, parts: Seq<PartFile>, summary: PartsSummary)
    ensures
        part@.name == part.name@,
        part@.expected_hash == part.expected_hash@,
        part@.path == part.path@,
        parts_view(parts).len() == parts.len(),
        forall|i: int| 0 <= i < parts.len() ==> (#[trigger] parts[i])@ == parts_view(parts)[i],
        summary@.successful == summary.successful_parts,
        summary@.failed.len() == summary.failed_parts@.len(),
        forall|i: int|
            0 <= i < summary.failed_parts@.len() ==> (#[trigger] summary.failed_parts@[i])@
                == summary@.failed[i],
{
}

} // verus!
