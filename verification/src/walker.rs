//! The decisions of a walk over a directory tree. The caller lists the
//! directories and reads the files; this module says what to do with each
//! entry and each file, keeps the work-list of directories still to visit,
//! and counts what was visited and what was skipped.

use crate::indexer::Indexer;
use crate::lexer::tokens;
use crate::parsing::{
    content_kind, extension_of, kind_of, kind_outcome, outcome, path_extension, read_file,
    read_kind, read_outcome, text_outcome, ContentKind, FileParsingError, HtmlTree, ReadOutcome,
};
use crate::terms::compute_tfs;
use vstd::prelude::*;

verus! {

/// How many files a walk has visited, and how many of them it skipped.
#[derive(Clone, Copy, Debug, PartialEq, Eq)]
pub struct Stats {
    pub total_docs_number: u32,
    pub skipped_docs: u32,
}

impl Stats {
    /// The counts of a walk that has visited nothing.
    pub fn new() -> (r: Self)
        ensures
            r.total_docs_number == 0,
            r.skipped_docs == 0,
    {
        Self { total_docs_number: 0, skipped_docs: 0 }
    }

    /// How many of the files visited were indexed: those that were not
    /// skipped.
    pub fn indexed_docs(&self) -> (r: u32)
        ensures
            r == if self.skipped_docs <= self.total_docs_number {
                self.total_docs_number - self.skipped_docs
            } else {
                0
            },
    {
        if self.skipped_docs <= self.total_docs_number {
            self.total_docs_number - self.skipped_docs
        } else {
            0
        }
    }
}

/// What an entry of a directory listing is.
#[derive(Clone, Copy, Debug, PartialEq, Eq)]
pub enum EntryKind {
    Directory,
    File,
    /// The type of the entry could not be determined.
    Unknown,
}

/// What the walk has got from its caller.
pub enum DirEvent {
    /// The open listing gave an entry.
    Entry { path: String, kind: EntryKind },
    /// The file at `path`, of the format `format`, was read, or could not
    /// be: `raw` is what reading gave.
    Content { path: String, format: ContentKind, raw: Result<String, std::io::Error> },
    /// The open listing has no more entries, or could not be opened.
    Exhausted,
}

/// What the caller has to do next.
#[derive(Debug)]
pub enum DirAction {
    /// Take the next entry of the open listing.
    Next,
    /// Read the file at this path and hand back what reading gave, with
    /// the format that the path stands for.
    Read(String, ContentKind),
    /// The file was skipped for this reason; go on with the next entry.
    Skipped(FileParsingError),
    /// Open the listing of this directory.
    Open(String),
    /// No directory is left to visit.
    Done,
}

/// A `DirAction` with its texts as sequences and its error as the outcome
/// it stands for.
pub enum Step {
    Next,
    Read(Seq<char>, ContentKind),
    Skipped(ReadOutcome),
    Open(Seq<char>),
    Done,
}

impl View for DirAction {
    type V = Step;

    open spec fn view(&self) -> Step {
        match self {
            DirAction::Next => Step::Next,
            DirAction::Read(path, kind) => Step::Read(path@, *kind),
            DirAction::Skipped(e) => Step::Skipped(outcome(Err(*e))),
            DirAction::Open(path) => Step::Open(path@),
            DirAction::Done => Step::Done,
        }
    }
}

/// The state of a walk: the directories still to visit, the last one
/// found first, and the counts.
pub struct Walk {
    sub_dirs: Vec<String>,
    stats: Stats,
}

/// A walk as its contracts see it: the work-list, the last directory
/// found at the end, and the counts as numbers.
pub struct WalkView {
    pub sub_dirs: Seq<Seq<char>>,
    pub total: nat,
    pub skipped: nat,
}

impl View for Walk {
    type V = WalkView;

    closed spec fn view(&self) -> WalkView {
        WalkView {
            sub_dirs: Seq::new(self.sub_dirs@.len(), |i: int| self.sub_dirs@[i]@),
            total: self.stats.total_docs_number as nat,
            skipped: self.stats.skipped_docs as nat,
        }
    }
}

/// The walk after the entry `path` of kind `kind`, and what its caller
/// does next, where `ext` is the extension of `path`. A directory is put on
/// the work-list. A file is counted; it is skipped where the index holds it
/// already or its extension names no format that can be read, and is asked
/// for otherwise.
pub open spec fn after_entry(
    w: WalkView,
    ix: Indexer,
    path: Seq<char>,
    kind: EntryKind,
    ext: Option<Seq<char>>,
) -> (WalkView, Step) {
    let counted = WalkView { total: w.total + 1, ..w };
    let skipped = WalkView { skipped: w.skipped + 1, ..counted };
    match kind {
        EntryKind::Directory => (WalkView { sub_dirs: w.sub_dirs.push(path), ..w }, Step::Next),
        EntryKind::Unknown => (w, Step::Next),
        EntryKind::File => if ix.contains_doc(path) {
            (skipped, Step::Next)
        } else {
            match ext {
                None => (skipped, Step::Skipped(ReadOutcome::NoExtension)),
                Some(e) => match kind_of(e) {
                    Some(format) => (counted, Step::Read(path, format)),
                    None => (skipped, Step::Skipped(ReadOutcome::UnknownExtension(e))),
                },
            }
        },
    }
}

/// The walk after the listing that was open is exhausted: the directory
/// found last is the next to open.
pub open spec fn after_exhausted(w: WalkView) -> (WalkView, Step) {
    if w.sub_dirs.len() > 0 {
        (WalkView { sub_dirs: w.sub_dirs.drop_last(), ..w }, Step::Open(w.sub_dirs.last()))
    } else {
        (w, Step::Done)
    }
}

/// `after` is `before` with the document `path` of text `text` indexed: an
/// identifier that is there already keeps its document.
pub open spec fn indexed(
    before: Indexer,
    after: Indexer,
    path: Seq<char>,
    text: Seq<char>,
) -> bool {
    if before.contains_doc(path) {
        after == before
    } else {
        &&& after.doc_ids() == before.doc_ids().push(path)
        &&& after.tfs().len() == before.tfs().len() + 1
        &&& after.tfs().drop_last() == before.tfs()
        &&& after.tfs().last().counts_of(tokens(text))
    }
}

/// What indexing a file does to the index, where `read` is how extracting
/// its content ended and `r` is what was answered: content is indexed, and
/// any failure leaves the index as it was and is answered as it is.
pub open spec fn file_indexed(
    before: Indexer,
    after: Indexer,
    path: Seq<char>,
    read: ReadOutcome,
    r: Result<(), FileParsingError>,
) -> bool {
    match read {
        ReadOutcome::Content(text) => r is Ok && indexed(before, after, path, text),
        failure => r matches Err(e) && outcome(Err(e)) == failure && after == before,
    }
}

/// The walk and the index after the content of the file `path` was asked
/// for and extracting it ended as `read`: content is indexed and the walk
/// goes on; a failure leaves the index as it was, counts the file as
/// skipped and is reported.
pub open spec fn after_content(
    w: WalkView,
    before: Indexer,
    path: Seq<char>,
    read: ReadOutcome,
    w2: WalkView,
    after: Indexer,
    step: Step,
) -> bool {
    match read {
        ReadOutcome::Content(text) => {
            &&& w2 == w
            &&& indexed(before, after, path, text)
            &&& step == Step::Next
        },
        failure => {
            &&& w2 == (WalkView { skipped: w.skipped + 1, ..w })
            &&& after == before
            &&& step == Step::Skipped(failure)
        },
    }
}

/// Indexes `content` under the identifier `file_path`, unless the index
/// holds that identifier already. Says whether it did.
pub fn index_content(file_path: &str, content: &str, indexer: &mut Indexer) -> (added: bool)
    requires
        old(indexer).wf(),
    ensures
        final(indexer).wf(),
        added == !old(indexer).contains_doc(file_path@),
        indexed(*old(indexer), *final(indexer), file_path@, content@),
{
    let terms_freqs = compute_tfs(content);
    let added = indexer.add_document(String::from_str(file_path), terms_freqs);
    proof {
        if added {
            assert(old(indexer).tfs().push(terms_freqs).drop_last() == old(indexer).tfs());
        }
    }
    added
}

/// Indexes the file at `file_path`, of which `raw` is what reading the file
/// gave: its content is extracted as the extension of the path asks, its
/// terms are counted, and the document is added to the index.
pub fn index_file(
    file_path: &str,
    raw: Result<String, std::io::Error>,
    indexer: &mut Indexer,
) -> (r: Result<(), FileParsingError>)
    requires
        old(indexer).wf(),
    ensures
        final(indexer).wf(),
        exists|parsed: Option<Seq<HtmlTree>>|
            file_indexed(
                *old(indexer),
                *final(indexer),
                file_path@,
                #[trigger] read_outcome(extension_of(file_path@), raw, parsed),
                r,
            ),
{
    let read = read_file(file_path, raw);
    let ghost parsed = choose|parsed: Option<Seq<HtmlTree>>|
        outcome(read) == read_outcome(extension_of(file_path@), raw, parsed);
    let r = index_extracted(file_path, read, indexer);
    assert(file_indexed(
        *old(indexer),
        *indexer,
        file_path@,
        read_outcome(extension_of(file_path@), raw, parsed),
        r,
    ));
    r
}

/// Indexes the file at `file_path`, of the format `kind`, of which `raw` is
/// what reading the file gave.
pub fn index_as(
    file_path: &str,
    kind: ContentKind,
    raw: Result<String, std::io::Error>,
    indexer: &mut Indexer,
) -> (r: Result<(), FileParsingError>)
    requires
        old(indexer).wf(),
    ensures
        final(indexer).wf(),
        exists|parsed: Option<Seq<HtmlTree>>|
            file_indexed(
                *old(indexer),
                *final(indexer),
                file_path@,
                kind_outcome(kind, raw, parsed),
                r,
            ),
        kind == ContentKind::Text ==> file_indexed(
            *old(indexer),
            *final(indexer),
            file_path@,
            text_outcome(raw),
            r,
        ),
{
    let read = read_kind(kind, raw);
    let ghost parsed = choose|parsed: Option<Seq<HtmlTree>>|
        outcome(read) == kind_outcome(kind, raw, parsed);
    let r = index_extracted(file_path, read, indexer);
    assert(file_indexed(*old(indexer), *indexer, file_path@, kind_outcome(kind, raw, parsed), r));
    r
}

/// Indexes what was extracted from the file at `file_path`: content is
/// indexed, and a failure is handed on and leaves the index as it was.
pub fn index_extracted(
    file_path: &str,
    read: Result<String, FileParsingError>,
    indexer: &mut Indexer,
) -> (r: Result<(), FileParsingError>)
    requires
        old(indexer).wf(),
    ensures
        final(indexer).wf(),
        file_indexed(*old(indexer), *final(indexer), file_path@, outcome(read), r),
        read matches Err(e) ==> r == Err::<(), FileParsingError>(e),
{
    match read {
        Ok(file_content) => {
            index_content(file_path, file_content.as_str(), indexer);
            Ok(())
        },
        Err(e) => Err(e),
    }
}

impl Walk {
    /// A walk that has visited nothing and has no directory to visit.
    pub fn new() -> (r: Self)
        ensures
            r@ == (WalkView { sub_dirs: Seq::empty(), total: 0, skipped: 0 }),
    {
        let r = Walk { sub_dirs: Vec::new(), stats: Stats::new() };
        assert(r@.sub_dirs =~= Seq::<Seq<char>>::empty());
        r
    }

    /// The counts so far.
    pub fn stats(&self) -> (r: Stats)
        ensures
            r.total_docs_number == self@.total,
            r.skipped_docs == self@.skipped,
    {
        self.stats
    }

    /// How many directories are still to visit.
    pub fn pending(&self) -> (r: usize)
        ensures
            r == self@.sub_dirs.len(),
    {
        self.sub_dirs.len()
    }
}

/// Decides what becomes of one entry of a directory listing, as
/// `after_entry` says with the extension of the path.
pub fn handle_entry(path: String, kind: EntryKind, walk: &mut Walk, indexer: &Indexer) -> (r:
    DirAction)
    requires
        indexer.wf(),
        kind == EntryKind::File ==> old(walk)@.total < u32::MAX && old(walk)@.skipped < u32::MAX,
    ensures
        (final(walk)@, r@) == after_entry(
            old(walk)@,
            *indexer,
            path@,
            kind,
            extension_of(path@),
        ),
{
    let ghost w = walk@;
    let ghost ext = extension_of(path@);
    match kind {
        EntryKind::Directory => {
            walk.sub_dirs.push(path);
            assert(walk@.sub_dirs =~= w.sub_dirs.push(path@));
            assert((walk@, Step::Next) == after_entry(w, *indexer, path@, kind, ext));
            DirAction::Next
        },
        EntryKind::Unknown => {
            assert((walk@, Step::Next) == after_entry(w, *indexer, path@, kind, ext));
            DirAction::Next
        },
        EntryKind::File => {
            walk.stats.total_docs_number += 1;
            if indexer.contains(path.as_str()) {
                walk.stats.skipped_docs += 1;
                assert((walk@, Step::Next) == after_entry(w, *indexer, path@, kind, ext));
                return DirAction::Next;
            }
            let extension = path_extension(path.as_str());
            let kind_found = match &extension {
                Some(e) => content_kind(Some(e.as_str())),
                None => content_kind(None),
            };
            match kind_found {
                Ok(format) => {
                    let r = DirAction::Read(path, format);
                    assert((walk@, r@) == after_entry(w, *indexer, path@, kind, ext));
                    r
                },
                Err(e) => {
                    walk.stats.skipped_docs += 1;
                    let r = DirAction::Skipped(e);
                    assert((walk@, r@) == after_entry(w, *indexer, path@, kind, ext));
                    r
                },
            }
        },
    }
}

/// One step of indexing a directory tree: takes what the caller got and
/// says what to do next. Entries are decided by `handle_entry`; what was
/// read of a file is indexed by `index_as`, in the format that was decided
/// when the file was asked for, and a file whose content cannot be
/// extracted is counted as skipped; when a listing is exhausted the
/// directory found last is opened next.
pub fn index_dir(walk: &mut Walk, indexer: &mut Indexer, event: DirEvent) -> (r: DirAction)
    requires
        old(indexer).wf(),
        event matches DirEvent::Entry { kind, .. } ==> (kind == EntryKind::File ==> old(walk)@.total
            < u32::MAX && old(walk)@.skipped < u32::MAX),
        event is Content ==> old(walk)@.skipped < u32::MAX,
    ensures
        final(indexer).wf(),
        match event {
            DirEvent::Entry { path, kind } => {
                &&& *final(indexer) == *old(indexer)
                &&& (final(walk)@, r@) == after_entry(
                    old(walk)@,
                    *old(indexer),
                    path@,
                    kind,
                    extension_of(path@),
                )
            },
            DirEvent::Content { path, format, raw } => {
                &&& exists|parsed: Option<Seq<HtmlTree>>|
                    after_content(
                        old(walk)@,
                        *old(indexer),
                        path@,
                        kind_outcome(format, raw, parsed),
                        final(walk)@,
                        *final(indexer),
                        r@,
                    )
                &&& format == ContentKind::Text ==> after_content(
                    old(walk)@,
                    *old(indexer),
                    path@,
                    text_outcome(raw),
                    final(walk)@,
                    *final(indexer),
                    r@,
                )
            },
            DirEvent::Exhausted => *final(indexer) == *old(indexer) && (final(walk)@, r@)
                == after_exhausted(old(walk)@),
        },
{
    let ghost w = walk@;
    match event {
        DirEvent::Entry { path, kind } => handle_entry(path, kind, walk, indexer),
        DirEvent::Content { path, format, raw } => {
            let indexing = index_as(path.as_str(), format, raw, indexer);
            let ghost parsed = choose|parsed: Option<Seq<HtmlTree>>|
                file_indexed(
                    *old(indexer),
                    *indexer,
                    path@,
                    kind_outcome(format, raw, parsed),
                    indexing,
                );
            match indexing {
                Ok(()) => {
                    assert(after_content(
                        w,
                        *old(indexer),
                        path@,
                        kind_outcome(format, raw, parsed),
                        walk@,
                        *indexer,
                        Step::Next,
                    ));
                    DirAction::Next
                },
                Err(e) => {
                    walk.stats.skipped_docs += 1;
                    let r = DirAction::Skipped(e);
                    assert(after_content(
                        w,
                        *old(indexer),
                        path@,
                        kind_outcome(format, raw, parsed),
                        walk@,
                        *indexer,
                        r@,
                    ));
                    r
                },
            }
        },
        DirEvent::Exhausted => {
            match walk.sub_dirs.pop() {
                Some(dir) => {
                    assert(walk@.sub_dirs =~= w.sub_dirs.drop_last());
                    DirAction::Open(dir)
                },
                None => DirAction::Done,
            }
        },
    }
}

/// One entry of a directory listing: its path and what it is.
pub struct EntryView {
    pub path: Seq<char>,
    pub kind: EntryKind,
}

/// How many of `entries` are files.
pub open spec fn files_among(entries: Seq<EntryView>) -> nat
    decreases entries.len(),
{
    if entries.len() == 0 {
        0
    } else {
        files_among(entries.drop_last()) + if entries.last().kind == EntryKind::File {
            1nat
        } else {
            0nat
        }
    }
}

/// The walk after the entries `entries`, taken in order, where `exts` gives
/// the extension of each.
pub open spec fn after_entries(
    w: WalkView,
    ix: Indexer,
    entries: Seq<EntryView>,
    exts: Seq<Option<Seq<char>>>,
) -> WalkView
    decreases entries.len(),
{
    if entries.len() == 0 {
        w
    } else {
        after_entry(
            after_entries(w, ix, entries.drop_last(), exts.drop_last()),
            ix,
            entries.last().path,
            entries.last().kind,
            exts.last(),
        ).0
    }
}

/// Walking over files that the index holds already skips every one of them:
/// no file is asked for, so that the index stays as it is, and the count of
/// visited files and the count of skipped files both grow by the number of
/// files.
pub proof fn lemma_reindexing_skips_every_file(
    w: WalkView,
    ix: Indexer,
    entries: Seq<EntryView>,
    exts: Seq<Option<Seq<char>>>,
)
    requires
        exts.len() == entries.len(),
        forall|i: int|
            0 <= i < entries.len() && (#[trigger] entries[i]).kind == EntryKind::File
                ==> ix.contains_doc(entries[i].path),
    ensures
        after_entries(w, ix, entries, exts).total == w.total + files_among(entries),
        after_entries(w, ix, entries, exts).skipped == w.skipped + files_among(entries),
        forall|i: int|
            0 <= i < entries.len() ==> after_entry(
                #[trigger] after_entries(w, ix, entries.take(i), exts.take(i)),
                ix,
                entries[i].path,
                entries[i].kind,
                exts[i],
            ).1 == Step::Next,
    decreases entries.len(),
{
    if entries.len() > 0 {
        let n = entries.len() - 1;
        let init = entries.drop_last();
        let init_exts = exts.drop_last();
        lemma_reindexing_skips_every_file(w, ix, init, init_exts);
        assert(entries[n].kind == EntryKind::File ==> ix.contains_doc(entries[n].path));
        assert forall|i: int| 0 <= i < entries.len() implies after_entry(
            #[trigger] after_entries(w, ix, entries.take(i), exts.take(i)),
            ix,
            entries[i].path,
            entries[i].kind,
            exts[i],
        ).1 == Step::Next by {
            assert(entries[i].kind == EntryKind::File ==> ix.contains_doc(entries[i].path));
            if i < n {
                assert(entries.take(i) == init.take(i));
                assert(exts.take(i) == init_exts.take(i));
                assert(init[i] == entries[i]);
            }
        }
    }
}

/// One entry as a walk takes it: its path and kind, the extension of the
/// path, and how extracting its content ends where the file is asked for.
pub struct Visit {
    pub path: Seq<char>,
    pub kind: EntryKind,
    pub ext: Option<Seq<char>>,
    pub read: ReadOutcome,
}

/// The walk `w` and the index `ix` become `w2` and `ix2` by the visit `v`:
/// by the step on the entry and, where that step asks for the file, by the
/// step on its content.
pub open spec fn visited(w: WalkView, ix: Indexer, v: Visit, w2: WalkView, ix2: Indexer) -> bool {
    let entered = after_entry(w, ix, v.path, v.kind, v.ext);
    match entered.1 {
        Step::Read(path, _) => exists|answer: Step|
            after_content(entered.0, ix, path, v.read, w2, ix2, answer),
        _ => w2 == entered.0 && ix2 == ix,
    }
}

/// How many of `visits` are visits of files.
pub open spec fn files_visited(visits: Seq<Visit>) -> nat
    decreases visits.len(),
{
    if visits.len() == 0 {
        0
    } else {
        files_visited(visits.drop_last()) + if visits.last().kind == EntryKind::File {
            1nat
        } else {
            0nat
        }
    }
}

/// `walks` and `indexes` are the states of a walk that makes the visits
/// `visits` one after the other: each visit leads from one state to the
/// next.
pub open spec fn walked(visits: Seq<Visit>, walks: Seq<WalkView>, indexes: Seq<Indexer>) -> bool {
    &&& walks.len() == visits.len() + 1
    &&& indexes.len() == visits.len() + 1
    &&& forall|i: int|
        0 <= i < visits.len() ==> visited(
            walks[i],
            indexes[i],
            #[trigger] visits[i],
            walks[i + 1],
            indexes[i + 1],
        )
}

/// One visit counts a file once, and a file that it counts is skipped or
/// becomes one more document of the index; no visit takes a document away
/// or lowers a count.
pub proof fn lemma_visit_accounts(w: WalkView, ix: Indexer, v: Visit, w2: WalkView, ix2: Indexer)
    requires
        visited(w, ix, v, w2, ix2),
    ensures
        w2.total == w.total + if v.kind == EntryKind::File {
            1nat
        } else {
            0nat
        },
        w.skipped <= w2.skipped,
        ix.doc_count() <= ix2.doc_count(),
        w2.total - w.total == (w2.skipped - w.skipped) + (ix2.doc_count() - ix.doc_count()),
{
    let entered = after_entry(w, ix, v.path, v.kind, v.ext);
    match entered.1 {
        Step::Read(path, _) => {
            let answer = choose|answer: Step|
                after_content(entered.0, ix, path, v.read, w2, ix2, answer);
            assert(after_content(entered.0, ix, path, v.read, w2, ix2, answer));
            assert(path == v.path && !ix.contains_doc(path));
        },
        _ => {},
    }
}

/// Over a whole walk every file visited is either skipped or indexed: the
/// count of visited files grows by the number of files, and by as much as
/// the count of skipped files and the number of documents in the index
/// grow together.
pub proof fn lemma_every_file_is_indexed_or_skipped(
    visits: Seq<Visit>,
    walks: Seq<WalkView>,
    indexes: Seq<Indexer>,
)
    requires
        walked(visits, walks, indexes),
    ensures
        walks.last().total == walks[0].total + files_visited(visits),
        walks[0].skipped <= walks.last().skipped,
        indexes[0].doc_count() <= indexes.last().doc_count(),
        walks.last().total - walks[0].total == (walks.last().skipped - walks[0].skipped)
            + (indexes.last().doc_count() - indexes[0].doc_count()),
    decreases visits.len(),
{
    if visits.len() > 0 {
        let n = visits.len() - 1;
        let before = visits.drop_last();
        let walks_before = walks.drop_last();
        let indexes_before = indexes.drop_last();
        assert forall|i: int| 0 <= i < before.len() implies visited(
            walks_before[i],
            indexes_before[i],
            #[trigger] before[i],
            walks_before[i + 1],
            indexes_before[i + 1],
        ) by {
            assert(visited(walks[i], indexes[i], visits[i], walks[i + 1], indexes[i + 1]));
        }
        lemma_every_file_is_indexed_or_skipped(before, walks_before, indexes_before);
        assert(visited(walks[n], indexes[n], visits[n], walks[n + 1], indexes[n + 1]));
        lemma_visit_accounts(walks[n], indexes[n], visits[n], walks[n + 1], indexes[n + 1]);
        assert(walks_before.last() == walks[n] && indexes_before.last() == indexes[n]);
        assert(walks_before[0] == walks[0] && indexes_before[0] == indexes[0]);
    }
}

} // verus!
