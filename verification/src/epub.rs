//! An e-book and its entries: which entries hold markup, and what becomes
//! of the markup of an entry on its way through translation.

use crate::blocks::{
    count_lines_needed, extract_blocks, extraction, lines_needed, reinsert_blocks, reinsertion,
};
use crate::layout::laid_out;
use crate::markup::MarkupError;
use crate::reader::{markup_events, read_events};
use crate::strings::{ends_with, has_suffix};
use crate::strip::{strip_events, stripped, well_formed};
use crate::translate::chunk::copy_lines;
use std::path::PathBuf;
use vstd::prelude::*;

verus! {

/// Removes the pronunciation annotations from the markup in `content`:
/// the tags of annotations and of their wrappers and the text inside an
/// annotation are cut out, and every other byte stays as it is. Fails
/// exactly where `content` holds malformed markup.
pub fn strip_xml_content(content: &[u8]) -> (r: Result<Vec<u8>, MarkupError>)
    ensures
        match r {
            Ok(out) => well_formed(markup_events(content@)) && laid_out(
                content@,
                markup_events(content@),
            ) && out@ == stripped(content@, markup_events(content@)),
            Err(e) => e == MarkupError::Malformed && !(well_formed(markup_events(content@))
                && laid_out(content@, markup_events(content@))),
        },
{
    let events = read_events(content);
    strip_events(content, &events)
}

/// Extracts, of the markup in `content`, the blocks to translate: one text
/// for each span of a translatable container that is not ignorable, in
/// document order.
pub fn translate_lines(content: &[u8]) -> (r: Result<Vec<String>, MarkupError>)
    ensures
        match r {
            Ok(blocks) => extraction(markup_events(content@)) == Ok::<
                Seq<Seq<char>>,
                MarkupError,
            >(blocks.deep_view()),
            Err(e) => extraction(markup_events(content@)) == Err::<Seq<Seq<char>>, MarkupError>(
                e,
            ),
        },
{
    let events = read_events(content);
    extract_blocks(&events)
}

/// What comes of putting `lines` back into `content`: an error where there
/// are fewer lines than blocks to translate, and otherwise the content with
/// each block followed, before the tag that ends it, by the next line
/// between its markers.
pub open spec fn translated_content(content: Seq<u8>, lines: Seq<Seq<char>>) -> Result<
    Seq<u8>,
    MarkupError,
> {
    if lines.len() < lines_needed(markup_events(content)) {
        Err(MarkupError::TooFewLines)
    } else {
        reinsertion(content, markup_events(content), lines)
    }
}

/// Puts the translated `lines` back into the markup in `content`: each
/// block to translate is followed, before the tag that ends it, by the next
/// line between `<<` and `>>`, written as text. Every byte of `content`
/// stays as it is. Where the lines run out, nothing is written and the
/// shortfall is reported.
pub fn translate_xml_content(lines: Vec<String>, content: &[u8]) -> (r: Result<
    Vec<u8>,
    MarkupError,
>)
    ensures
        match r {
            Ok(out) => translated_content(content@, lines.deep_view()) == Ok::<
                Seq<u8>,
                MarkupError,
            >(out@),
            Err(e) => translated_content(content@, lines.deep_view()) == Err::<
                Seq<u8>,
                MarkupError,
            >(e),
        },
{
    let events = read_events(content);
    if lines.len() < count_lines_needed(&events) {
        return Err(MarkupError::TooFewLines);
    }
    reinsert_blocks(content, &events, &lines)
}

/// `std::path::PathBuf`, declared so that a path can be held and handed on.
/// Nothing inside a path is seen.
#[verifier::external_type_specification]
#[verifier::external_body]
pub struct ExPathBuf(PathBuf);

/// An e-book to translate: where it is read from and where the
/// translation is written to.
pub struct Epub {
    input_path: PathBuf,
    output_path: PathBuf,
}

impl Epub {
    /// The e-book at `input_path`, to be written to `output_path`.
    pub fn new(input_path: PathBuf, output_path: PathBuf) -> (epub: Self)
        ensures
            epub.input() == input_path,
            epub.output() == output_path,
    {
        Self { input_path, output_path }
    }

    /// Where the e-book is read from.
    pub closed spec fn input(&self) -> PathBuf {
        self.input_path
    }

    /// Where the translation is written to.
    pub closed spec fn output(&self) -> PathBuf {
        self.output_path
    }

    /// Where the e-book is read from.
    pub fn input_path(&self) -> (path: &PathBuf)
        ensures
            *path == self.input(),
    {
        &self.input_path
    }

    /// Where the translation is written to.
    pub fn output_path(&self) -> (path: &PathBuf)
        ensures
            *path == self.output(),
    {
        &self.output_path
    }
}

/// One entry of an e-book: its name and its bytes.
#[derive(Clone, Debug, PartialEq, Eq)]
pub struct Entry {
    pub name: String,
    pub content: Vec<u8>,
}

/// The mathematical value of an [`Entry`].
pub struct EntryModel {
    pub name: Seq<char>,
    pub content: Seq<u8>,
}

impl View for Entry {
    type V = EntryModel;

    open spec fn view(&self) -> EntryModel {
        EntryModel { name: self.name@, content: self.content@ }
    }
}

impl DeepView for Entry {
    type V = EntryModel;

    open spec fn deep_view(&self) -> EntryModel {
        self@
    }
}

/// Whether an entry of this name holds markup to translate: the name ends
/// in `.xhtml`, `.xml`, `.html` or `.htm`.
pub open spec fn is_markup_name(name: Seq<char>) -> bool {
    has_suffix(name, ".xhtml"@) || has_suffix(name, ".xml"@) || has_suffix(name, ".html"@)
        || has_suffix(name, ".htm"@)
}

/// Whether an entry of this name holds markup to translate.
pub fn is_markup_entry(name: &str) -> (r: bool)
    ensures
        r == is_markup_name(name@),
{
    ends_with(name, ".xhtml") || ends_with(name, ".xml") || ends_with(name, ".html") || ends_with(
        name,
        ".htm",
    )
}

/// What is to be done with an entry.
#[derive(Clone, Debug, PartialEq, Eq)]
pub enum EntryWork {
    /// The entry holds no markup: it goes to the output as it is.
    Copy(Entry),
    /// The entry holds markup: here it is without its annotations, with
    /// the blocks to translate.
    Translate(Entry, Vec<String>),
}

/// The mathematical value of an [`EntryWork`].
pub enum WorkModel {
    Copy(EntryModel),
    Translate(EntryModel, Seq<Seq<char>>),
}

impl View for EntryWork {
    type V = WorkModel;

    open spec fn view(&self) -> WorkModel {
        match self {
            EntryWork::Copy(entry) => WorkModel::Copy(entry@),
            EntryWork::Translate(plain, blocks) => WorkModel::Translate(
                plain@,
                blocks.deep_view(),
            ),
        }
    }
}

impl DeepView for EntryWork {
    type V = WorkModel;

    open spec fn deep_view(&self) -> WorkModel {
        self@
    }
}

/// What comes of opening an entry that holds markup: the markup without
/// its annotations and the blocks to translate in it.
pub open spec fn opened_markup(content: Seq<u8>) -> Result<(Seq<u8>, Seq<Seq<char>>), MarkupError> {
    if !(well_formed(markup_events(content)) && laid_out(content, markup_events(content))) {
        Err(MarkupError::Malformed)
    } else {
        let plain = stripped(content, markup_events(content));
        match extraction(markup_events(plain)) {
            Ok(blocks) => Ok((plain, blocks)),
            Err(e) => Err(e),
        }
    }
}

/// What comes of opening an entry: an entry without markup is to be
/// copied as it is; the markup of any other is stripped of its annotations
/// and its blocks to translate are extracted.
pub open spec fn opened(entry: EntryModel) -> Result<WorkModel, MarkupError> {
    if !is_markup_name(entry.name) {
        Ok(WorkModel::Copy(entry))
    } else {
        match opened_markup(entry.content) {
            Ok((plain, blocks)) => Ok(
                WorkModel::Translate(EntryModel { name: entry.name, content: plain }, blocks),
            ),
            Err(e) => Err(e),
        }
    }
}

/// What comes of closing an entry: an entry to copy is the entry of the
/// output; the translated `lines` of any other are put back into its markup,
/// under the same name.
pub open spec fn closed(work: WorkModel, lines: Seq<Seq<char>>) -> Result<
    EntryModel,
    MarkupError,
> {
    match work {
        WorkModel::Copy(entry) => Ok(entry),
        WorkModel::Translate(plain, _) => match translated_content(plain.content, lines) {
            Ok(content) => Ok(EntryModel { name: plain.name, content }),
            Err(e) => Err(e),
        },
    }
}

/// What comes of opening the entries of an e-book, in order; the error of
/// the first entry that has one.
pub open spec fn opened_all(entries: Seq<EntryModel>) -> Result<Seq<WorkModel>, MarkupError>
    decreases entries.len(),
{
    if entries.len() == 0 {
        Ok(Seq::empty())
    } else {
        match opened_all(entries.drop_last()) {
            Err(e) => Err(e),
            Ok(works) => match opened(entries.last()) {
                Err(e) => Err(e),
                Ok(work) => Ok(works.push(work)),
            },
        }
    }
}

/// How many of the works are entries to translate: how many translations
/// an e-book asks for.
pub open spec fn translations_needed(works: Seq<WorkModel>) -> nat
    decreases works.len(),
{
    if works.len() == 0 {
        0
    } else {
        translations_needed(works.drop_last()) + if works.last() is Translate {
            1nat
        } else {
            0nat
        }
    }
}

/// The entries of the output, in the order of the works: the `k`-th entry
/// to translate is closed with the `k`-th translation, and every entry to
/// copy stands as it is. The error of the first entry that has one.
pub open spec fn closed_all(works: Seq<WorkModel>, translations: Seq<Seq<Seq<char>>>) -> Result<
    Seq<EntryModel>,
    MarkupError,
>
    recommends
        translations_needed(works) <= translations.len(),
    decreases works.len(),
{
    if works.len() == 0 {
        Ok(Seq::empty())
    } else {
        match closed_all(works.drop_last(), translations) {
            Err(e) => Err(e),
            Ok(entries) => match closed(
                works.last(),
                translations[translations_needed(works.drop_last()) as int],
            ) {
                Err(e) => Err(e),
                Ok(entry) => Ok(entries.push(entry)),
            },
        }
    }
}

/// Entries without markup pass through: the works of an e-book are as many
/// as its entries, an entry whose name does not tell of markup is copied as
/// it is, at its place, and only the other entries ask for a translation.
pub proof fn lemma_opened_all(entries: Seq<EntryModel>)
    requires
        opened_all(entries) is Ok,
    ensures
        opened_all(entries)->Ok_0.len() == entries.len(),
        forall|i: int|
            0 <= i < entries.len() ==> opened(#[trigger] entries[i]) == Ok::<
                WorkModel,
                MarkupError,
            >(opened_all(entries)->Ok_0[i]),
        forall|i: int|
            0 <= i < entries.len() && !is_markup_name((#[trigger] entries[i]).name) ==> opened_all(
                entries,
            )->Ok_0[i] == WorkModel::Copy(entries[i]),
    decreases entries.len(),
{
    if entries.len() > 0 {
        lemma_opened_all(entries.drop_last());
        let before = opened_all(entries.drop_last())->Ok_0;
        let works = opened_all(entries)->Ok_0;
        assert forall|i: int| 0 <= i < entries.len() implies opened(#[trigger] entries[i]) == Ok::<
            WorkModel,
            MarkupError,
        >(works[i]) by {
            if i < entries.len() - 1 {
                assert(entries.drop_last()[i] == entries[i]);
                assert(before[i] == works[i]);
            }
        }
    }
}

/// Closing keeps the places: the entries of the output are as many as the
/// works, and an entry to copy stands at its place as it is.
pub proof fn lemma_closed_all(works: Seq<WorkModel>, translations: Seq<Seq<Seq<char>>>)
    requires
        closed_all(works, translations) is Ok,
    ensures
        closed_all(works, translations)->Ok_0.len() == works.len(),
        forall|i: int|
            0 <= i < works.len() ==> ((#[trigger] works[i]) matches WorkModel::Copy(entry)
                ==> closed_all(works, translations)->Ok_0[i] == entry),
    decreases works.len(),
{
    if works.len() > 0 {
        lemma_closed_all(works.drop_last(), translations);
        let before = closed_all(works.drop_last(), translations)->Ok_0;
        let entries = closed_all(works, translations)->Ok_0;
        assert forall|i: int| 0 <= i < works.len() implies ((#[trigger] works[i]) matches WorkModel::Copy(
            entry,
        ) ==> entries[i] == entry) by {
            if i < works.len() - 1 {
                assert(works.drop_last()[i] == works[i]);
                assert(before[i] == entries[i]);
            }
        }
    }
}

/// An entry without markup is the same in the output as in the input: in
/// an e-book that has gone through opening and closing, every entry whose
/// name does not tell of markup stands at its place with its name and its
/// bytes, whatever the translations are.
pub proof fn lemma_pass_through(entries: Seq<EntryModel>, translations: Seq<Seq<Seq<char>>>)
    requires
        opened_all(entries) is Ok,
        closed_all(opened_all(entries)->Ok_0, translations) is Ok,
    ensures
        closed_all(opened_all(entries)->Ok_0, translations)->Ok_0.len() == entries.len(),
        forall|i: int|
            0 <= i < entries.len() && !is_markup_name((#[trigger] entries[i]).name) ==> closed_all(
                opened_all(entries)->Ok_0,
                translations,
            )->Ok_0[i] == entries[i],
{
    lemma_opened_all(entries);
    let works = opened_all(entries)->Ok_0;
    lemma_closed_all(works, translations);
    let out = closed_all(works, translations)->Ok_0;
    assert forall|i: int|
        0 <= i < entries.len() && !is_markup_name((#[trigger] entries[i]).name) implies out[i]
        == entries[i] by {
        assert(works[i] == WorkModel::Copy(entries[i]));
    }
}

/// An e-book without markup asks for no translation: where no entry's name
/// tells of markup, no work is an entry to translate.
pub proof fn lemma_nothing_to_translate(entries: Seq<EntryModel>)
    requires
        forall|i: int| 0 <= i < entries.len() ==> !is_markup_name((#[trigger] entries[i]).name),
    ensures
        opened_all(entries) is Ok,
        translations_needed(opened_all(entries)->Ok_0) == 0,
        closed_all(opened_all(entries)->Ok_0, Seq::empty()) == Ok::<Seq<EntryModel>, MarkupError>(
            entries,
        ),
    decreases entries.len(),
{
    if entries.len() > 0 {
        assert forall|i: int| 0 <= i < entries.drop_last().len() implies !is_markup_name(
            (#[trigger] entries.drop_last()[i]).name,
        ) by {
            assert(entries.drop_last()[i] == entries[i]);
        }
        lemma_nothing_to_translate(entries.drop_last());
        assert(!is_markup_name(entries[entries.len() - 1].name));
        let works = opened_all(entries)->Ok_0;
        let none = Seq::<Seq<Seq<char>>>::empty();
        assert(works.drop_last() == opened_all(entries.drop_last())->Ok_0);
        assert(works.last() == WorkModel::Copy(entries.last()));
        assert(!(works.last() is Translate));
        assert(closed_all(works.drop_last(), none) == Ok::<Seq<EntryModel>, MarkupError>(
            entries.drop_last(),
        ));
        assert(closed(works.last(), none[translations_needed(works.drop_last()) as int]) == Ok::<
            EntryModel,
            MarkupError,
        >(entries.last()));
        assert(entries.drop_last().push(entries.last()) == entries);
        assert(closed_all(works, none) == Ok::<Seq<EntryModel>, MarkupError>(entries));
    } else {
        assert(entries == Seq::<EntryModel>::empty());
    }
}

/// A prefix of the works asks for no more translations than all of them.
pub proof fn lemma_translations_prefix(works: Seq<WorkModel>, n: int)
    requires
        0 <= n <= works.len(),
    ensures
        translations_needed(works.take(n)) <= translations_needed(works),
    decreases works.len() - n,
{
    if n < works.len() {
        assert(works.take(n + 1).drop_last() == works.take(n));
        lemma_translations_prefix(works, n + 1);
    } else {
        assert(works.take(n) == works);
    }
}

/// Opens an entry. An entry without markup is handed back as it is, byte
/// for byte; the markup of any other is stripped of its annotations and its
/// blocks to translate are extracted.
pub fn open_entry(entry: Entry) -> (r: Result<EntryWork, MarkupError>)
    ensures
        !is_markup_name(entry.name@) ==> r == Ok::<EntryWork, MarkupError>(EntryWork::Copy(entry)),
        match r {
            Ok(work) => opened(entry@) == Ok::<WorkModel, MarkupError>(work@),
            Err(e) => opened(entry@) == Err::<WorkModel, MarkupError>(e),
        },
{
    if !is_markup_entry(entry.name.as_str()) {
        return Ok(EntryWork::Copy(entry));
    }
    let content = match strip_xml_content(entry.content.as_slice()) {
        Ok(content) => content,
        Err(e) => {
            return Err(e);
        },
    };
    let blocks = match translate_lines(content.as_slice()) {
        Ok(blocks) => blocks,
        Err(e) => {
            return Err(e);
        },
    };
    Ok(EntryWork::Translate(Entry { name: entry.name, content }, blocks))
}

/// Closes an entry whose blocks have been translated: the translated lines
/// are put back into the stripped markup, under the same name.
pub fn close_entry(plain: Entry, translated: Vec<String>) -> (r: Result<Entry, MarkupError>)
    ensures
        match r {
            Ok(entry) => entry.name == plain.name && translated_content(
                plain.content@,
                translated.deep_view(),
            ) == Ok::<Seq<u8>, MarkupError>(entry.content@),
            Err(e) => translated_content(plain.content@, translated.deep_view()) == Err::<
                Seq<u8>,
                MarkupError,
            >(e),
        },
{
    match translate_xml_content(translated, plain.content.as_slice()) {
        Ok(content) => Ok(Entry { name: plain.name, content }),
        Err(e) => Err(e),
    }
}

/// Opens the entries of an e-book, in order, and stops at the first
/// error.
pub fn open_entries(entries: Vec<Entry>) -> (r: Result<Vec<EntryWork>, MarkupError>)
    ensures
        match r {
            Ok(works) => opened_all(entries.deep_view()) == Ok::<Seq<WorkModel>, MarkupError>(
                works.deep_view(),
            ),
            Err(e) => opened_all(entries.deep_view()) == Err::<Seq<WorkModel>, MarkupError>(e),
        },
{
    let ghost models = entries.deep_view();
    let mut works: Vec<EntryWork> = Vec::new();
    assert(models.take(0) == Seq::<EntryModel>::empty());
    assert(works.deep_view() == Seq::<WorkModel>::empty());
    for entry in it: entries.into_iter()
        invariant
            models == entries.deep_view(),
            models.len() == it.seq().len(),
            forall|i: int| 0 <= i < models.len() ==> models[i] == (#[trigger] it.seq()[i])@,
            opened_all(models.take(it.index() as int)) == Ok::<Seq<WorkModel>, MarkupError>(
                works.deep_view(),
            ),
    {
        let ghost done = it.index() as int;
        let ghost so_far = works.deep_view();
        proof {
            assert(models.take(done + 1).drop_last() == models.take(done));
            assert(models.take(done + 1).last() == entry@);
        }
        match open_entry(entry) {
            Err(e) => {
                proof {
                    lemma_opened_error(models, done + 1);
                }
                return Err(e);
            },
            Ok(work) => {
                works.push(work);
                assert(works.deep_view() == so_far.push(work@));
            },
        }
    }
    assert(models.take(models.len() as int) == models);
    Ok(works)
}

/// An error among the first `n` entries is the error of the whole e-book.
proof fn lemma_opened_error(entries: Seq<EntryModel>, n: int)
    requires
        0 <= n <= entries.len(),
        opened_all(entries.take(n)) is Err,
    ensures
        opened_all(entries) == opened_all(entries.take(n)),
    decreases entries.len() - n,
{
    if n < entries.len() {
        assert(entries.take(n + 1).drop_last() == entries.take(n));
        lemma_opened_error(entries, n + 1);
    } else {
        assert(entries.take(n) == entries);
    }
}

/// An error among the first `n` works is the error of the whole e-book.
proof fn lemma_closed_error(works: Seq<WorkModel>, translations: Seq<Seq<Seq<char>>>, n: int)
    requires
        0 <= n <= works.len(),
        closed_all(works.take(n), translations) is Err,
    ensures
        closed_all(works, translations) == closed_all(works.take(n), translations),
    decreases works.len() - n,
{
    if n < works.len() {
        assert(works.take(n + 1).drop_last() == works.take(n));
        lemma_closed_error(works, translations, n + 1);
    } else {
        assert(works.take(n) == works);
    }
}

/// Closes the entries of an e-book, in order: every entry to translate is
/// closed with the next of the `translations`, every entry to copy goes to
/// the output as it is. There must be a translation for every entry to
/// translate. Stops at the first error.
pub fn close_entries(works: Vec<EntryWork>, translations: &Vec<Vec<String>>) -> (r: Result<
    Vec<Entry>,
    MarkupError,
>)
    requires
        translations_needed(works.deep_view()) <= translations@.len(),
    ensures
        match r {
            Ok(entries) => closed_all(works.deep_view(), translations.deep_view()) == Ok::<
                Seq<EntryModel>,
                MarkupError,
            >(entries.deep_view()),
            Err(e) => closed_all(works.deep_view(), translations.deep_view()) == Err::<
                Seq<EntryModel>,
                MarkupError,
            >(e),
        },
{
    let ghost models = works.deep_view();
    let ghost lines = translations.deep_view();
    let mut entries: Vec<Entry> = Vec::new();
    let mut used: usize = 0;
    let available = translations.len();
    assert(models.take(0) == Seq::<WorkModel>::empty());
    assert(entries.deep_view() == Seq::<EntryModel>::empty());
    for work in it: works.into_iter()
        invariant
            models == works.deep_view(),
            available == translations@.len(),
            models.len() == it.seq().len(),
            forall|i: int| 0 <= i < models.len() ==> models[i] == (#[trigger] it.seq()[i])@,
            lines == translations.deep_view(),
            translations_needed(models) <= translations@.len(),
            used == translations_needed(models.take(it.index() as int)),
            closed_all(models.take(it.index() as int), lines) == Ok::<
                Seq<EntryModel>,
                MarkupError,
            >(entries.deep_view()),
    {
        let ghost done = it.index() as int;
        let ghost so_far = entries.deep_view();
        proof {
            assert(models.take(done + 1).drop_last() == models.take(done));
            assert(models.take(done + 1).last() == work@);
            lemma_translations_prefix(models, done + 1);
        }
        match work {
            EntryWork::Copy(entry) => {
                entries.push(entry);
                assert(entries.deep_view() == so_far.push(entry@));
            },
            EntryWork::Translate(plain, _) => {
                assert(used + 1 == translations_needed(models.take(done + 1)));
                assert(used < available);
                let translated = copy_lines(&translations[used], 0, translations[used].len());
                proof {
                    assert(lines[used as int] == translations[used as int].deep_view());
                    assert(translated.deep_view() == lines[used as int]);
                }
                match close_entry(plain, translated) {
                    Err(e) => {
                        proof {
                            lemma_closed_error(models, lines, done + 1);
                        }
                        return Err(e);
                    },
                    Ok(entry) => {
                        entries.push(entry);
                        assert(entries.deep_view() == so_far.push(entry@));
                        used += 1;
                    },
                }
            },
        }
    }
    assert(models.take(models.len() as int) == models);
    Ok(entries)
}

} // verus!
