//! File discovery: which of the entries found at the configured sources
//! are indexed, under which label, and in which order.
//!
//! A source is a single file, a directory of notes (`.md`) or a directory of
//! transcripts (`.jsonl`). A directory is read one level deep, and its files
//! are taken in the lexicographic order of their paths.

use vstd::prelude::*;
use crate::config::Source;
use crate::index::FileKind;
use crate::index::FileRef;
use crate::text::chars_of;
use crate::text::has_at;
use crate::text::is_text;

verus! {

broadcast use vstd::seq_lib::group_to_multiset_ensures;

/// The kinds of source that a configuration can name.
#[derive(Clone, Copy, Debug, PartialEq, Eq, Structural)]
pub enum SourceType {
    SingleFile,
    MarkdownDir,
    TranscriptDir,
}

/// Why discovery did not take place.
#[derive(Debug, Clone, PartialEq, Eq)]
pub enum DiscoverError {
    /// A source names a type that is none of the known ones.
    UnknownSourceType(String),
}

/// One entry found at a source: a file's path, and when the file was last
/// modified if that could be read.
#[derive(Debug, Clone, PartialEq, Eq)]
pub struct Entry {
    pub path: String,
    pub mtime: Option<i64>,
}

/// A source with what was found there: the file itself for a single file
/// that exists, the entries of the directory for a directory that could be
/// read, and nothing otherwise.
#[derive(Debug, Clone, PartialEq, Eq)]
pub struct SourceListing {
    pub source: Source,
    pub entries: Vec<Entry>,
}

/// A `FileRef` with its texts as sequences of characters.
pub struct FileSpec {
    pub path: Seq<char>,
    pub kind: FileKind,
    pub label: Seq<char>,
    pub mtime: Option<i64>,
}

impl View for FileRef {
    type V = FileSpec;

    open spec fn view(&self) -> FileSpec {
        FileSpec { path: self.path@, kind: self.kind, label: self.label@, mtime: self.mtime }
    }
}

/// The views of a list of files.
pub open spec fn file_specs(files: Seq<FileRef>) -> Seq<FileSpec> {
    Seq::new(files.len(), |i: int| files[i]@)
}

/// The source type that a configured name stands for.
pub open spec fn known_type(name: Seq<char>) -> Option<SourceType> {
    if name == "single_file"@ {
        Some(SourceType::SingleFile)
    } else if name == "markdown_dir"@ {
        Some(SourceType::MarkdownDir)
    } else if name == "transcript_dir"@ {
        Some(SourceType::TranscriptDir)
    } else {
        None
    }
}

/// The extension that files of a directory source must have.
pub open spec fn extension_of(source_type: SourceType) -> Option<Seq<char>> {
    match source_type {
        SourceType::SingleFile => None,
        SourceType::MarkdownDir => Some("md"@),
        SourceType::TranscriptDir => Some("jsonl"@),
    }
}

/// How the files of a source are read.
pub open spec fn kind_of(source_type: SourceType) -> FileKind {
    match source_type {
        SourceType::TranscriptDir => FileKind::Transcript,
        _ => FileKind::Markdown,
    }
}

/// The label of the files of a source: the configured one for notes, else
/// the default of the source type. Transcripts are always labelled
/// `transcript`.
pub open spec fn label_of(source_type: SourceType, configured: Option<Seq<char>>) -> Seq<char> {
    match source_type {
        SourceType::TranscriptDir => "transcript"@,
        SourceType::SingleFile => match configured {
            Some(label) => label,
            None => "single_file"@,
        },
        SourceType::MarkdownDir => match configured {
            Some(label) => label,
            None => "daily_note"@,
        },
    }
}

/// Whether the file name at the end of `path` has the extension `ext`: the
/// path ends in a dot and `ext`, and the dot is not the first character of
/// the file name.
pub open spec fn has_extension(path: Seq<char>, ext: Seq<char>) -> bool {
    let n = path.len() as int;
    let m = ext.len() as int;
    &&& n >= m + 2
    &&& path.subrange(n - m, n) == ext
    &&& path[n - m - 1] == '.'
    &&& path[n - m - 2] != '/'
}

/// The entries whose file name has the extension `ext`, in the order found.
pub open spec fn wanted(entries: Seq<Entry>, ext: Seq<char>) -> Seq<Entry> {
    entries.filter(|e: Entry| has_extension(e.path@, ext))
}

/// Lexicographic order of texts, character by character: whether `a` is `b`
/// or comes before it.
pub open spec fn precedes(a: Seq<char>, b: Seq<char>) -> bool
    decreases a.len(),
{
    if a.len() == 0 {
        true
    } else if b.len() == 0 {
        false
    } else if a[0] != b[0] {
        (a[0] as u32) < (b[0] as u32)
    } else {
        precedes(a.drop_first(), b.drop_first())
    }
}

/// Whether the entries stand in the lexicographic order of their paths.
pub open spec fn in_path_order(entries: Seq<Entry>) -> bool {
    forall|i: int, j: int|
        0 <= i < j < entries.len() ==> precedes(
            (#[trigger] entries[i]).path@,
            (#[trigger] entries[j]).path@,
        )
}

/// Where an entry with path `path` goes in `sorted`: behind the last entry
/// that does not come after it.
pub open spec fn slot(sorted: Seq<Entry>, path: Seq<char>) -> int
    decreases sorted.len(),
{
    if sorted.len() == 0 {
        0
    } else if precedes(sorted.last().path@, path) {
        sorted.len() as int
    } else {
        slot(sorted.drop_last(), path)
    }
}

/// The entries in the lexicographic order of their paths; entries of one
/// path keep the order in which they were found.
pub open spec fn ordered(entries: Seq<Entry>) -> Seq<Entry>
    decreases entries.len(),
{
    if entries.len() == 0 {
        Seq::empty()
    } else {
        let head = ordered(entries.drop_last());
        head.insert(slot(head, entries.last().path@), entries.last())
    }
}

/// The file that an entry becomes.
pub open spec fn file_of(entry: Entry, kind: FileKind, label: Seq<char>) -> FileSpec {
    FileSpec { path: entry.path@, kind: kind, label: label, mtime: entry.mtime }
}

/// The entries of a source that are indexed, in order: every entry of a
/// single-file source; of a directory, the entries with the extension of its
/// type, ordered by path.
pub open spec fn chosen(source_type: SourceType, entries: Seq<Entry>) -> Seq<Entry> {
    match extension_of(source_type) {
        Some(ext) => ordered(wanted(entries, ext)),
        None => entries,
    }
}

/// The files of one source.
pub open spec fn source_files(
    source_type: SourceType,
    configured: Option<Seq<char>>,
    entries: Seq<Entry>,
) -> Seq<FileSpec> {
    Seq::new(
        chosen(source_type, entries).len(),
        |i: int|
            file_of(chosen(source_type, entries)[i], kind_of(source_type), label_of(source_type, configured)),
    )
}

/// The label that a source configures, if any.
pub open spec fn configured_label(source: Source) -> Option<Seq<char>> {
    match source.source_label {
        Some(label) => Some(label@),
        None => None,
    }
}

/// The files of one listing; `None` if its source type is not known.
pub open spec fn listing_files(listing: SourceListing) -> Option<Seq<FileSpec>> {
    match known_type(listing.source.source_type@) {
        Some(source_type) => Some(
            source_files(source_type, configured_label(listing.source), listing.entries@),
        ),
        None => None,
    }
}

/// The files of all listings, source after source; `None` if any source type
/// is not known.
pub open spec fn discovered(listings: Seq<SourceListing>) -> Option<Seq<FileSpec>>
    decreases listings.len(),
{
    if listings.len() == 0 {
        Some(Seq::empty())
    } else {
        match (discovered(listings.drop_last()), listing_files(listings.last())) {
            (Some(before), Some(files)) => Some(before + files),
            _ => None,
        }
    }
}

/// Of two texts, one is the other or comes before it.
pub proof fn lemma_precedes_total(a: Seq<char>, b: Seq<char>)
    ensures
        precedes(a, b) || precedes(b, a),
    decreases a.len(),
{
    if a.len() > 0 && b.len() > 0 {
        if a[0] == b[0] {
            lemma_precedes_total(a.drop_first(), b.drop_first());
        } else {
            vstd::utf8::char_u32_cast(a[0], a[0] as u32);
            vstd::utf8::char_u32_cast(b[0], b[0] as u32);
        }
    }
}

/// The order of texts is transitive.
pub proof fn lemma_precedes_transitive(a: Seq<char>, b: Seq<char>, c: Seq<char>)
    requires
        precedes(a, b),
        precedes(b, c),
    ensures
        precedes(a, c),
    decreases a.len(),
{
    if a.len() > 0 && b.len() > 0 && c.len() > 0 && a[0] == b[0] && b[0] == c[0] {
        lemma_precedes_transitive(a.drop_first(), b.drop_first(), c.drop_first());
    }
}

/// The slot of a path lies behind all entries that do not come after the
/// path, and before those that do.
pub proof fn lemma_slot(sorted: Seq<Entry>, path: Seq<char>)
    ensures
        0 <= slot(sorted, path) <= sorted.len(),
        slot(sorted, path) > 0 ==> precedes(sorted[slot(sorted, path) - 1].path@, path),
        forall|j: int|
            slot(sorted, path) <= j < sorted.len() ==> !precedes((#[trigger] sorted[j]).path@, path),
    decreases sorted.len(),
{
    if sorted.len() > 0 && !precedes(sorted.last().path@, path) {
        let head = sorted.drop_last();
        lemma_slot(head, path);
        assert forall|j: int| slot(sorted, path) <= j < sorted.len() implies !precedes(
            (#[trigger] sorted[j]).path@,
            path,
        ) by {
            if j < head.len() {
                assert(sorted[j] == head[j]);
            }
        }
    }
}

/// Putting the entries in order gives the same entries, each as often as
/// before, in the lexicographic order of their paths.
pub proof fn lemma_ordered(entries: Seq<Entry>)
    ensures
        ordered(entries).to_multiset() == entries.to_multiset(),
        ordered(entries).len() == entries.len(),
        in_path_order(ordered(entries)),
    decreases entries.len(),
{
    if entries.len() == 0 {
        assert(ordered(entries) =~= entries);
    } else {
        let head = ordered(entries.drop_last());
        let last = entries.last();
        let at = slot(head, last.path@);
        let all = head.insert(at, last);
        lemma_ordered(entries.drop_last());
        lemma_slot(head, last.path@);
        assert(entries =~= entries.drop_last().push(last));
        assert(all.to_multiset() =~= entries.to_multiset());
        assert forall|i: int, j: int| 0 <= i < j < all.len() implies precedes(
            (#[trigger] all[i]).path@,
            (#[trigger] all[j]).path@,
        ) by {
            if j < at {
                assert(all[i] == head[i] && all[j] == head[j]);
            } else if j == at {
                assert(all[i] == head[i]);
                if i < at - 1 {
                    assert(precedes(head[i].path@, head[at - 1].path@));
                    lemma_precedes_transitive(head[i].path@, head[at - 1].path@, last.path@);
                }
            } else if i == at {
                assert(all[j] == head[j - 1]);
                lemma_precedes_total(head[j - 1].path@, last.path@);
            } else if i < at {
                assert(all[i] == head[i] && all[j] == head[j - 1]);
            } else {
                assert(all[i] == head[i - 1] && all[j] == head[j - 1]);
            }
        }
    }
}

/// What discovery promises of a directory: the files chosen are exactly the
/// entries that have the extension of the source type, each as often as it
/// was found, and they stand in the lexicographic order of their paths.
pub proof fn lemma_directory_files(source_type: SourceType, entries: Seq<Entry>)
    requires
        extension_of(source_type) is Some,
    ensures
        in_path_order(chosen(source_type, entries)),
        chosen(source_type, entries).to_multiset() == wanted(
            entries,
            extension_of(source_type).unwrap(),
        ).to_multiset(),
        forall|i: int|
            0 <= i < chosen(source_type, entries).len() ==> has_extension(
                (#[trigger] chosen(source_type, entries)[i]).path@,
                extension_of(source_type).unwrap(),
            ),
        forall|j: int|
            0 <= j < entries.len() && has_extension(
                (#[trigger] entries[j]).path@,
                extension_of(source_type).unwrap(),
            ) ==> chosen(source_type, entries).contains(entries[j]),
{
    let ext = extension_of(source_type).unwrap();
    let pred = |e: Entry| has_extension(e.path@, ext);
    let picked = wanted(entries, ext);
    let sorted = chosen(source_type, entries);
    lemma_ordered(picked);
    assert forall|i: int| 0 <= i < sorted.len() implies has_extension(
        (#[trigger] sorted[i]).path@,
        ext,
    ) by {
        assert(sorted.contains(sorted[i]));
        assert(picked.to_multiset().count(sorted[i]) > 0);
        assert(picked.contains(sorted[i]));
        let k = choose|k: int| 0 <= k < picked.len() && picked[k] == sorted[i];
        entries.lemma_filter_pred(pred, k);
    }
    assert forall|j: int|
        0 <= j < entries.len() && has_extension((#[trigger] entries[j]).path@, ext) implies sorted.contains(
        entries[j],
    ) by {
        entries.lemma_filter_contains(pred, j);
        assert(picked.to_multiset().count(entries[j]) > 0);
    }
}

/// Reads the type of a source from its configured name.
pub fn parse_source_type(name: &str) -> (parsed: Result<SourceType, DiscoverError>)
    ensures
        match parsed {
            Ok(source_type) => known_type(name@) == Some(source_type),
            Err(DiscoverError::UnknownSourceType(given)) => known_type(name@) is None && given@
                == name@,
        },
{
    let given = name.to_owned();
    if is_text(&given, "single_file") {
        Ok(SourceType::SingleFile)
    } else if is_text(&given, "markdown_dir") {
        Ok(SourceType::MarkdownDir)
    } else if is_text(&given, "transcript_dir") {
        Ok(SourceType::TranscriptDir)
    } else {
        Err(DiscoverError::UnknownSourceType(given))
    }
}

/// Tells whether the file name at the end of `path` has the extension `ext`.
pub fn has_ext(path: &[char], ext: &[char]) -> (b: bool)
    ensures
        b == has_extension(path@, ext@),
{
    let n = path.len();
    let m = ext.len();
    if m > usize::MAX - 2 || n < m + 2 {
        return false;
    }
    has_at(path, ext, n - m) && path[n - m - 1] == '.' && path[n - m - 2] != '/'
}

/// Tells whether `a` is `b` or comes before it in lexicographic order.
pub fn comes_first(a: &[char], b: &[char]) -> (first: bool)
    ensures
        first == precedes(a@, b@),
{
    let mut i: usize = 0;
    assert(a@.skip(0) =~= a@ && b@.skip(0) =~= b@);
    while i < a.len() && i < b.len()
        invariant
            i <= a.len(),
            i <= b.len(),
            precedes(a@.skip(i as int), b@.skip(i as int)) == precedes(a@, b@),
        decreases a.len() - i,
    {
        assert(a@.skip(i as int).drop_first() =~= a@.skip(i + 1));
        assert(b@.skip(i as int).drop_first() =~= b@.skip(i + 1));
        assert(a@.skip(i as int)[0] == a@[i as int] && b@.skip(i as int)[0] == b@[i as int]);
        if a[i] != b[i] {
            return (a[i] as u32) < (b[i] as u32);
        }
        i += 1;
    }
    i == a.len()
}

/// The entries whose file name has the extension `ext`, in the order found.
pub fn select(entries: &Vec<Entry>, ext: &str) -> (out: Vec<Entry>)
    ensures
        out@ == wanted(entries@, ext@),
{
    let ext_chars = chars_of(ext);
    let ghost pred = |e: Entry| has_extension(e.path@, ext@);
    let mut out: Vec<Entry> = Vec::new();
    let mut i: usize = 0;
    proof {
        reveal(Seq::filter);
        assert(entries@.take(0).filter(pred) =~= Seq::<Entry>::empty());
    }
    while i < entries.len()
        invariant
            i <= entries.len(),
            ext_chars@ == ext@,
            pred == (|e: Entry| has_extension(e.path@, ext@)),
            out@ == entries@.take(i as int).filter(pred),
        decreases entries.len() - i,
    {
        proof {
            assert(entries@.take(i + 1) =~= entries@.take(i as int).push(entries@[i as int]));
            entries@.take(i as int).lemma_filter_push(entries@[i as int], pred);
        }
        let path = chars_of(entries[i].path.as_str());
        if has_ext(path.as_slice(), ext_chars.as_slice()) {
            out.push(Entry { path: entries[i].path.clone(), mtime: entries[i].mtime });
        }
        i += 1;
    }
    assert(entries@.take(i as int) =~= entries@);
    out
}

/// Puts the entries in the lexicographic order of their paths.
pub fn sort_by_path(entries: &Vec<Entry>) -> (out: Vec<Entry>)
    ensures
        out@ == ordered(entries@),
        out@.to_multiset() == entries@.to_multiset(),
        in_path_order(out@),
{
    let mut out: Vec<Entry> = Vec::new();
    let mut i: usize = 0;
    assert(ordered(entries@.take(0)) =~= Seq::<Entry>::empty());
    while i < entries.len()
        invariant
            i <= entries.len(),
            out@ == ordered(entries@.take(i as int)),
        decreases entries.len() - i,
    {
        let path = chars_of(entries[i].path.as_str());
        let mut at: usize = out.len();
        assert(out@.take(at as int) =~= out@);
        while at > 0 && !comes_first(chars_of(out[at - 1].path.as_str()).as_slice(), path.as_slice())
            invariant
                at <= out.len(),
                path@ == entries[i as int].path@,
                slot(out@.take(at as int), path@) == slot(out@, path@),
            decreases at,
        {
            assert(out@.take(at as int).drop_last() =~= out@.take(at - 1));
            at -= 1;
        }
        proof {
            assert(entries@.take(i + 1).drop_last() =~= entries@.take(i as int));
            assert(entries@.take(i + 1).last() == entries[i as int]);
            assert(slot(out@, path@) == at);
        }
        out.insert(at, Entry { path: entries[i].path.clone(), mtime: entries[i].mtime });
        i += 1;
    }
    proof {
        assert(entries@.take(i as int) =~= entries@);
        lemma_ordered(entries@);
    }
    out
}

/// The files of one source, given its type, its configured label and the
/// entries found there.
pub fn files_of(source_type: SourceType, configured: &Option<String>, entries: &Vec<Entry>) -> (files:
    Vec<FileRef>)
    ensures
        file_specs(files@) == source_files(
            source_type,
            match configured {
                Some(label) => Some(label@),
                None => None,
            },
            entries@,
        ),
{
    let kind = match source_type {
        SourceType::TranscriptDir => FileKind::Transcript,
        _ => FileKind::Markdown,
    };
    let sorted: Vec<Entry> = match source_type {
        SourceType::SingleFile => Vec::new(),
        SourceType::MarkdownDir => sort_by_path(&select(entries, "md")),
        SourceType::TranscriptDir => sort_by_path(&select(entries, "jsonl")),
    };
    let picked: &Vec<Entry> = match source_type {
        SourceType::SingleFile => entries,
        _ => &sorted,
    };
    assert(picked@ == chosen(source_type, entries@));
    let mut files: Vec<FileRef> = Vec::new();
    let mut i: usize = 0;
    while i < picked.len()
        invariant
            i <= picked.len(),
            files.len() == i,
            kind == kind_of(source_type),
            forall|j: int|
                0 <= j < i ==> (#[trigger] files[j])@ == file_of(
                    picked[j],
                    kind,
                    label_of(
                        source_type,
                        match configured {
                            Some(label) => Some(label@),
                            None => None,
                        },
                    ),
                ),
        decreases picked.len() - i,
    {
        let label = match source_type {
            SourceType::TranscriptDir => "transcript".to_owned(),
            SourceType::SingleFile => match configured {
                Some(given) => given.clone(),
                None => "single_file".to_owned(),
            },
            SourceType::MarkdownDir => match configured {
                Some(given) => given.clone(),
                None => "daily_note".to_owned(),
            },
        };
        files.push(
            FileRef { path: picked[i].path.clone(), kind: kind, label: label, mtime: picked[i].mtime },
        );
        i += 1;
    }
    assert(file_specs(files@) =~= source_files(
        source_type,
        match configured {
            Some(label) => Some(label@),
            None => None,
        },
        entries@,
    ));
    files
}

/// The files that a run has to look at: those of each source in the order
/// of the sources. A source of unknown type is an error, and nothing is
/// discovered then; the error names the first such type.
pub fn discover(listings: &Vec<SourceListing>) -> (found: Result<Vec<FileRef>, DiscoverError>)
    ensures
        match found {
            Ok(files) => discovered(listings@) == Some(file_specs(files@)),
            Err(DiscoverError::UnknownSourceType(given)) => {
                &&& discovered(listings@) is None
                &&& exists|i: int|
                    0 <= i < listings.len() && given@ == (#[trigger] listings[i]).source.source_type@
                        && known_type(given@) is None && discovered(listings@.take(i)) is Some
            },
        },
{
    let mut all: Vec<FileRef> = Vec::new();
    let mut i: usize = 0;
    assert(file_specs(all@) =~= Seq::<FileSpec>::empty());
    while i < listings.len()
        invariant
            i <= listings.len(),
            discovered(listings@.take(i as int)) == Some(file_specs(all@)),
        decreases listings.len() - i,
    {
        let listing = &listings[i];
        proof {
            assert(listings@.take(i + 1).drop_last() =~= listings@.take(i as int));
            assert(listings@.take(i + 1).last() == listings[i as int]);
        }
        match parse_source_type(listing.source.source_type.as_str()) {
            Ok(source_type) => {
                let mut files = files_of(source_type, &listing.source.source_label, &listing.entries);
                let ghost before = file_specs(all@);
                let ghost added = file_specs(files@);
                all.append(&mut files);
                assert(file_specs(all@) =~= before + added);
            },
            Err(e) => {
                proof {
                    lemma_unknown_stays(listings@, i as int);
                }
                return Err(e);
            },
        }
        i += 1;
    }
    assert(listings@.take(i as int) =~= listings@);
    Ok(all)
}

/// Once a source of unknown type has been met, nothing is discovered.
proof fn lemma_unknown_stays(listings: Seq<SourceListing>, i: int)
    requires
        0 <= i < listings.len(),
        listing_files(listings[i]) is None,
    ensures
        discovered(listings) is None,
    decreases listings.len(),
{
    if i < listings.len() - 1 {
        lemma_unknown_stays(listings.drop_last(), i);
    }
}

} // verus!
