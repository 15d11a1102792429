//! The recommendation export pipeline: identifier selection, format
//! selection, joining recommendations with file records, and rendering the
//! result as table rows, a JSON document or an M3U8 playlist.

use vstd::prelude::*;

use crate::nums::{dec_digits, dec_padded, fixed4, push_decimal, push_fixed4};
use crate::paths::{
    canonical_comps, check_and_correct_extension, chars_eq, clone_chars, clone_components,
    display_of, display_path, join_path, parent_dir, push_chars, relativize, sep_join, spec_join,
    spec_normalize, spec_relativize, valid_extension, LibPath,
};

verus! {

/// The errors the pipeline reports. No error is recovered from: each one
/// aborts the invocation that raised it.
#[derive(Clone, Copy, Debug, PartialEq, Eq, Structural)]
pub enum PipelineError {
    /// A required flag or combination of flags is missing.
    UsageError,
    /// An identifier did not resolve to a library item.
    NotFound,
    /// The recommendation backend failed or did not know the item.
    RetrievalError,
    /// A file could not be created or written.
    IoError,
    /// No relative path could be computed for a playlist line.
    PathError,
    /// The requested output format is not recognized.
    UnsupportedFormat,
}

/// How the caller names the item to recommend from: directly by id, or by a
/// file path to be resolved against the library.
#[derive(Debug)]
pub enum ItemIdentifier {
    Id(u64),
    FilePath(LibPath),
}

/// One recommendation: an item id and its distance from the queried item,
/// counted in ten-thousandths. Lower means more similar; the retrieval order
/// (ascending distance) is preserved through every renderer.
#[derive(Clone, Copy, Debug, PartialEq, Eq, Structural)]
pub struct RecommendationEntry {
    pub item_id: u64,
    pub distance_ten_thousandths: u64,
}

/// The location of a library file, relative to the library root.
#[derive(Debug)]
pub struct FileRecord {
    pub id: u64,
    pub directory: Vec<Vec<char>>,
    pub file_name: Vec<char>,
}

/// The output format the caller selected.
#[derive(Clone, Copy, Debug, PartialEq, Eq, Structural)]
pub enum OutputFormat {
    Table,
    Json,
    M3u8,
    Unsupported,
}

/// The characters of the JSON format selector.
pub open spec fn json_selector() -> Seq<char> {
    seq!['j', 's', 'o', 'n']
}

/// The characters of the M3U8 format selector.
pub open spec fn m3u8_selector() -> Seq<char> {
    seq!['m', '3', 'u', '8']
}

/// Picks the identifier to resolve: a direct item id wins, then a file path;
/// with neither, the call is a usage error, raised before any collaborator
/// is consulted.
pub fn select_identifier(item_id: Option<u64>, file_path: Option<LibPath>) -> (r: Result<
    ItemIdentifier,
    PipelineError,
>)
    ensures
        match r {
            Ok(ident) => match ident {
                ItemIdentifier::Id(id) => item_id == Some(id),
                ItemIdentifier::FilePath(p) => item_id is None && file_path is Some
                    && p.comps() == file_path.unwrap().comps() && p.absolute
                    == file_path.unwrap().absolute,
            },
            Err(e) => e == PipelineError::UsageError && item_id is None && file_path is None,
        },
        (item_id is None && file_path is None) <==> r is Err,
{
    match item_id {
        Some(id) => Ok(ItemIdentifier::Id(id)),
        None => match file_path {
            Some(p) => Ok(ItemIdentifier::FilePath(p)),
            None => Err(PipelineError::UsageError),
        },
    }
}

/// What the resolver decides for an identifier: a direct id is already
/// resolved, unvalidated, while a file path must be looked up in the
/// file-metadata store, scoped to the library root.
#[derive(Debug)]
pub enum ResolveAction {
    Resolved(u64),
    LookupPath(LibPath),
}

/// Decides how to resolve the identifier: a direct id passes through
/// unchanged, a file path is handed back for a store lookup.
pub fn resolve_step(identifier: ItemIdentifier) -> (r: ResolveAction)
    ensures
        match identifier {
            ItemIdentifier::Id(id) => r matches ResolveAction::Resolved(got) && got == id,
            ItemIdentifier::FilePath(p) => r matches ResolveAction::LookupPath(q) && q.absolute
                == p.absolute && q.comps() == p.comps(),
        },
{
    match identifier {
        ItemIdentifier::Id(id) => ResolveAction::Resolved(id),
        ItemIdentifier::FilePath(p) => ResolveAction::LookupPath(p),
    }
}

/// Reads the format selector: absent means the interactive table, `json` and
/// `m3u8` name the file formats, and anything else is unsupported.
pub fn parse_format(format: &Option<Vec<char>>) -> (r: OutputFormat)
    ensures
        r == spec_parse_format(match format {
            Some(f) => Some(f@),
            None => None,
        }),
{
    match format {
        None => OutputFormat::Table,
        Some(f) => {
            let mut json_sel: Vec<char> = Vec::new();
            json_sel.push('j');
            json_sel.push('s');
            json_sel.push('o');
            json_sel.push('n');
            proof {
                assert(json_sel@ =~= json_selector());
            }
            if chars_eq(f, &json_sel) {
                return OutputFormat::Json;
            }
            let mut m3u8_sel: Vec<char> = Vec::new();
            m3u8_sel.push('m');
            m3u8_sel.push('3');
            m3u8_sel.push('u');
            m3u8_sel.push('8');
            proof {
                assert(m3u8_sel@ =~= m3u8_selector());
            }
            if chars_eq(f, &m3u8_sel) {
                return OutputFormat::M3u8;
            }
            OutputFormat::Unsupported
        },
    }
}

/// The format a selector names.
pub open spec fn spec_parse_format(format: Option<Seq<char>>) -> OutputFormat {
    match format {
        None => OutputFormat::Table,
        Some(f) => if f == json_selector() {
            OutputFormat::Json
        } else if f == m3u8_selector() {
            OutputFormat::M3u8
        } else {
            OutputFormat::Unsupported
        },
    }
}

/// The first record whose id matches, if any.
pub open spec fn spec_find_record(records: Seq<FileRecord>, id: u64) -> Option<FileRecord>
    decreases records.len(),
{
    if records.len() == 0 {
        None
    } else if records[0].id == id {
        Some(records[0])
    } else {
        spec_find_record(records.skip(1), id)
    }
}

proof fn lemma_find_record_step(records: Seq<FileRecord>, id: u64, i: int)
    requires
        0 <= i <= records.len(),
        forall|j: int| 0 <= j < i ==> records[j].id != id,
    ensures
        spec_find_record(records, id) == spec_find_record(records.skip(i), id),
    decreases i,
{
    if i > 0 {
        assert(records[0].id != id);
        assert(records.len() > 0);
        assert forall|j: int| 0 <= j < i - 1 implies records.skip(1)[j].id != id by {
            assert(records.skip(1)[j] == records[j + 1]);
        }
        lemma_find_record_step(records.skip(1), id, i - 1);
        assert(records.skip(1).skip(i - 1) =~= records.skip(i));
    } else {
        assert(records.skip(0) =~= records);
    }
}

/// Finds the index of the first record with the given id.
pub fn find_record(records: &Vec<FileRecord>, id: u64) -> (r: Option<usize>)
    ensures
        match r {
            Some(i) => 0 <= i < records@.len() && spec_find_record(records@, id) == Some(
                records@[i as int],
            ) && records@[i as int].id == id,
            None => spec_find_record(records@, id) is None,
        },
{
    let mut i: usize = 0;
    while i < records.len()
        invariant
            0 <= i <= records@.len(),
            forall|j: int| 0 <= j < i ==> records@[j].id != id,
        decreases records@.len() - i,
    {
        if records[i].id == id {
            proof {
                lemma_find_record_step(records@, id, i as int);
                assert(records@.skip(i as int)[0] == records@[i as int]);
            }
            return Some(i);
        }
        i = i + 1;
    }
    proof {
        lemma_find_record_step(records@, id, records@.len() as int);
    }
    None
}

/// The recommendations joined with their file records, in retrieval order;
/// an entry without a matching record contributes nothing.
pub open spec fn matched(entries: Seq<RecommendationEntry>, records: Seq<FileRecord>) -> Seq<
    (RecommendationEntry, FileRecord),
>
    decreases entries.len(),
{
    if entries.len() == 0 {
        Seq::empty()
    } else {
        let rest = matched(entries.skip(1), records);
        match spec_find_record(records, entries[0].item_id) {
            Some(rec) => seq![(entries[0], rec)] + rest,
            None => rest,
        }
    }
}

pub proof fn lemma_matched_push(
    entries: Seq<RecommendationEntry>,
    e: RecommendationEntry,
    records: Seq<FileRecord>,
)
    ensures
        matched(entries.push(e), records) == matched(entries, records) + (
        match spec_find_record(records, e.item_id) {
            Some(rec) => seq![(e, rec)],
            None => Seq::<(RecommendationEntry, FileRecord)>::empty(),
        }),
    decreases entries.len(),
{
    if entries.len() == 0 {
        assert(entries.push(e)[0] == e);
        assert(entries.push(e).skip(1) =~= entries);
        match spec_find_record(records, e.item_id) {
            Some(rec) => {
                assert(matched(entries.push(e), records) =~= matched(entries, records) + seq![
                    (e, rec),
                ]);
            },
            None => {
                assert(matched(entries.push(e), records) =~= matched(entries, records));
            },
        }
    } else {
        assert(entries.push(e).skip(1) =~= entries.skip(1).push(e));
        lemma_matched_push(entries.skip(1), e, records);
        assert(entries.push(e)[0] == entries[0]);
        let tail = match spec_find_record(records, e.item_id) {
            Some(rec) => seq![(e, rec)],
            None => Seq::<(RecommendationEntry, FileRecord)>::empty(),
        };
        match spec_find_record(records, entries[0].item_id) {
            Some(rec0) => {
                assert(seq![(entries[0], rec0)] + (matched(entries.skip(1), records) + tail) =~= (
                seq![(entries[0], rec0)] + matched(entries.skip(1), records)) + tail);
            },
            None => {},
        }
    }
}

/// Every joined pair carries a record that the joiner found for its entry:
/// an entry without a matching record never reaches a renderer that needs
/// joined metadata.
pub proof fn lemma_matched_only_resolved(
    entries: Seq<RecommendationEntry>,
    records: Seq<FileRecord>,
)
    ensures
        forall|j: int|
            0 <= j < matched(entries, records).len() ==> spec_find_record(
                records,
                #[trigger] matched(entries, records)[j].0.item_id,
            ) == Some(matched(entries, records)[j].1),
    decreases entries.len(),
{
    if entries.len() == 0 {
    } else {
        lemma_matched_only_resolved(entries.skip(1), records);
        let rest = matched(entries.skip(1), records);
        match spec_find_record(records, entries[0].item_id) {
            Some(rec) => {
                assert forall|j: int| 0 <= j < matched(entries, records).len() implies
                    spec_find_record(
                    records,
                    #[trigger] matched(entries, records)[j].0.item_id,
                ) == Some(matched(entries, records)[j].1) by {
                    if j > 0 {
                        assert(matched(entries, records)[j] == rest[j - 1]);
                    } else {
                        assert(matched(entries, records)[0] == (entries[0], rec));
                    }
                }
            },
            None => {},
        }
    }
}

/// The joined pairs are exactly the entries that have a file record, kept in
/// retrieval order, each paired with the record the joiner found for it.
pub proof fn lemma_matched_is_ordered_filter(
    entries: Seq<RecommendationEntry>,
    records: Seq<FileRecord>,
)
    ensures
        matched(entries, records) == entries.filter(
            |e: RecommendationEntry| spec_find_record(records, e.item_id) is Some,
        ).map_values(
            |e: RecommendationEntry| (e, spec_find_record(records, e.item_id)->Some_0),
        ),
    decreases entries.len(),
{
    reveal_with_fuel(Seq::<RecommendationEntry>::filter, 2);
    let pred = |e: RecommendationEntry| spec_find_record(records, e.item_id) is Some;
    let f = |e: RecommendationEntry| (e, spec_find_record(records, e.item_id)->Some_0);
    if entries.len() == 0 {
        assert(entries.filter(pred).map_values(f) =~= Seq::<
            (RecommendationEntry, FileRecord),
        >::empty());
    } else {
        let prefix = entries.drop_last();
        let x = entries.last();
        lemma_matched_is_ordered_filter(prefix, records);
        lemma_matched_push(prefix, x, records);
        assert(prefix.push(x) =~= entries);
        match spec_find_record(records, x.item_id) {
            Some(rec) => {
                assert(pred(x));
                assert(f(x) == (x, rec));
                assert(entries.filter(pred) == prefix.filter(pred).push(x));
                assert(entries.filter(pred).map_values(f) =~= prefix.filter(pred).map_values(
                    f,
                ).push((x, rec)));
                assert(matched(entries, records) == matched(prefix, records) + seq![(x, rec)]);
                assert(matched(prefix, records) + seq![(x, rec)] =~= matched(
                    prefix,
                    records,
                ).push((x, rec)));
            },
            None => {
                assert(!pred(x));
                assert(entries.filter(pred) == prefix.filter(pred));
                assert(matched(entries, records) =~= matched(prefix, records));
            },
        }
    }
}

/// The components a file record names under a library root: its directory
/// components, then its file name.
pub open spec fn record_comps(rec: FileRecord) -> Seq<Seq<char>> {
    rec.directory.deep_view() + seq![rec.file_name@]
}

/// The absolute path of a record's file under the library root.
pub fn record_path(library_root: &LibPath, rec: &FileRecord) -> (p: LibPath)
    ensures
        p.absolute == library_root.absolute,
        p.comps() == library_root.comps() + record_comps(*rec),
{
    let mut components = clone_components(&rec.directory);
    let name = clone_chars(&rec.file_name);
    components.push(name);
    proof {
        assert(components.deep_view() =~~= record_comps(*rec));
    }
    let rel = LibPath { absolute: false, components };
    let p = join_path(library_root, &rel);
    p
}

/// One rendered table row.
#[derive(Debug)]
pub struct TableRow {
    pub id_text: Vec<char>,
    pub distance_text: Vec<char>,
    pub path_text: Vec<char>,
}

impl TableRow {
    /// The three cell texts of the row.
    pub open spec fn texts(&self) -> (Seq<char>, Seq<char>, Seq<char>) {
        (self.id_text@, self.distance_text@, self.path_text@)
    }
}

/// The cell texts a joined pair renders to: the id zero-padded to five
/// digits, the distance with four decimal places, and the absolute path of
/// the file under the library root.
pub open spec fn row_texts(
    e: RecommendationEntry,
    rec: FileRecord,
    root_absolute: bool,
    root: Seq<Seq<char>>,
) -> (Seq<char>, Seq<char>, Seq<char>) {
    (
        dec_padded(e.item_id as nat, 5),
        fixed4(e.distance_ten_thousandths as nat),
        display_of(root_absolute, root + record_comps(rec)),
    )
}

/// Renders the table rows: one row per recommendation with a matching file
/// record, in retrieval order; entries without a record are skipped.
pub fn render_table_rows(
    entries: &Vec<RecommendationEntry>,
    records: &Vec<FileRecord>,
    library_root: &LibPath,
) -> (rows: Vec<TableRow>)
    ensures
        rows@.len() == matched(entries@, records@).len(),
        forall|j: int|
            0 <= j < rows@.len() ==> (#[trigger] rows@[j]).texts() == row_texts(
                matched(entries@, records@)[j].0,
                matched(entries@, records@)[j].1,
                library_root.absolute,
                library_root.comps(),
            ),
{
    let mut rows: Vec<TableRow> = Vec::new();
    let mut i: usize = 0;
    while i < entries.len()
        invariant
            0 <= i <= entries@.len(),
            rows@.len() == matched(entries@.take(i as int), records@).len(),
            forall|j: int|
                0 <= j < rows@.len() ==> (#[trigger] rows@[j]).texts() == row_texts(
                    matched(entries@.take(i as int), records@)[j].0,
                    matched(entries@.take(i as int), records@)[j].1,
                    library_root.absolute,
                    library_root.comps(),
                ),
        decreases entries@.len() - i,
    {
        let e = entries[i];
        let ghost done = matched(entries@.take(i as int), records@);
        match find_record(records, e.item_id) {
            Some(ri) => {
                let mut id_text: Vec<char> = Vec::new();
                push_decimal(&mut id_text, e.item_id, 5);
                let mut distance_text: Vec<char> = Vec::new();
                push_fixed4(&mut distance_text, e.distance_ten_thousandths);
                let p = record_path(library_root, &records[ri]);
                let path_text = display_path(&p);
                proof {
                    assert(id_text@ =~= dec_padded(e.item_id as nat, 5));
                    assert(distance_text@ =~= fixed4(e.distance_ten_thousandths as nat));
                }
                rows.push(TableRow { id_text, distance_text, path_text });
            },
            None => {},
        }
        proof {
            lemma_matched_push(entries@.take(i as int), e, records@);
            assert(entries@.take(i as int).push(e) =~= entries@.take(i + 1));
        }
        i = i + 1;
    }
    proof {
        assert(entries@.take(entries@.len() as int) =~= entries@);
    }
    rows
}

/// The JSON rendering of one raw entry: a two-element array of the id and
/// the distance.
pub open spec fn json_item(e: RecommendationEntry) -> Seq<char> {
    seq!['['] + dec_digits(e.item_id as nat) + seq![','] + fixed4(
        e.distance_ten_thousandths as nat,
    ) + seq![']']
}

/// The JSON renderings of the raw entries, one per entry, in order.
pub open spec fn json_items(entries: Seq<RecommendationEntry>) -> Seq<Seq<char>> {
    entries.map_values(|e: RecommendationEntry| json_item(e))
}

/// The JSON document for the raw entries: an array of two-element arrays.
pub open spec fn json_of(entries: Seq<RecommendationEntry>) -> Seq<char> {
    seq!['['] + sep_join(json_items(entries), ',') + seq![']']
}

/// The JSON document renders every raw entry, joined or not, and renders
/// them in retrieval order: its `i`-th element is the rendering of the
/// `i`-th entry.
pub proof fn lemma_json_preserves_entries(entries: Seq<RecommendationEntry>)
    ensures
        json_items(entries).len() == entries.len(),
        forall|i: int|
            0 <= i < entries.len() ==> json_items(entries)[i] == json_item(#[trigger] entries[i]),
{
}

/// An entry without a matching file record still has its element in the JSON
/// document, which renders the raw entries, but it joins with no record, so
/// it reaches no table row and no playlist line.
pub proof fn lemma_unresolved_entry_rendering(
    entries: Seq<RecommendationEntry>,
    records: Seq<FileRecord>,
    i: int,
)
    requires
        0 <= i < entries.len(),
        spec_find_record(records, entries[i].item_id) is None,
    ensures
        json_items(entries)[i] == json_item(entries[i]),
        forall|j: int|
            0 <= j < matched(entries, records).len() ==> (#[trigger] matched(entries, records)[j]).0
                != entries[i],
{
    lemma_json_preserves_entries(entries);
    lemma_matched_only_resolved(entries, records);
    assert forall|j: int| 0 <= j < matched(entries, records).len() implies (#[trigger] matched(
        entries,
        records,
    )[j]).0 != entries[i] by {
        if matched(entries, records)[j].0 == entries[i] {
            assert(spec_find_record(records, matched(entries, records)[j].0.item_id) is Some);
        }
    }
}

/// Renders the JSON document for the raw entries.
pub fn render_json(entries: &Vec<RecommendationEntry>) -> (out: Vec<char>)
    ensures
        out@ == json_of(entries@),
{
    let mut out: Vec<char> = Vec::new();
    out.push('[');
    proof {
        assert(entries@.take(0).map_values(|e: RecommendationEntry| json_item(e)) =~= Seq::<
            Seq<char>,
        >::empty());
        assert(out@ =~= seq!['['] + sep_join(json_items(entries@.take(0)), ','));
    }
    let mut i: usize = 0;
    while i < entries.len()
        invariant
            0 <= i <= entries@.len(),
            out@ == seq!['['] + sep_join(json_items(entries@.take(i as int)), ','),
        decreases entries@.len() - i,
    {
        let e = entries[i];
        let ghost done = json_items(entries@.take(i as int));
        if i > 0 {
            out.push(',');
        }
        out.push('[');
        proof {
            crate::nums::lemma_dec_digits_len(e.item_id as nat);
        }
        push_decimal(&mut out, e.item_id, 1);
        out.push(',');
        push_fixed4(&mut out, e.distance_ten_thousandths);
        out.push(']');
        proof {
            crate::paths::lemma_sep_join_push(done, json_item(e), ',');
            assert(json_items(entries@.take(i + 1)) =~= done.push(json_item(e)));
            assert(out@ =~= seq!['['] + sep_join(json_items(entries@.take(i + 1)), ','));
        }
        i = i + 1;
    }
    out.push(']');
    proof {
        assert(entries@.take(entries@.len() as int) =~= entries@);
        assert(out@ =~= json_of(entries@));
    }
    out
}

/// The header line every playlist begins with.
pub open spec fn m3u8_header() -> Seq<char> {
    seq!['#', 'E', 'X', 'T', 'M', '3', 'U', '\n']
}

/// One playlist line: the record's file expressed relative to the playlist's
/// own directory.
pub open spec fn m3u8_line(rec: FileRecord, root: Seq<Seq<char>>, outdir: Seq<Seq<char>>) -> Seq<
    char,
> {
    display_of(false, spec_relativize(root + record_comps(rec), outdir))
}

/// The playlist lines for the joined pairs, each terminated by a newline, in
/// retrieval order.
pub open spec fn m3u8_body(
    pairs: Seq<(RecommendationEntry, FileRecord)>,
    root: Seq<Seq<char>>,
    outdir: Seq<Seq<char>>,
) -> Seq<char>
    decreases pairs.len(),
{
    if pairs.len() == 0 {
        Seq::empty()
    } else {
        m3u8_line(pairs[0].1, root, outdir) + seq!['\n'] + m3u8_body(pairs.skip(1), root, outdir)
    }
}

/// The full playlist: the header, then one line per joined pair.
pub open spec fn m3u8_of(
    entries: Seq<RecommendationEntry>,
    records: Seq<FileRecord>,
    root: Seq<Seq<char>>,
    outdir: Seq<Seq<char>>,
) -> Seq<char> {
    m3u8_header() + m3u8_body(matched(entries, records), root, outdir)
}

proof fn lemma_m3u8_body_push(
    pairs: Seq<(RecommendationEntry, FileRecord)>,
    p: (RecommendationEntry, FileRecord),
    root: Seq<Seq<char>>,
    outdir: Seq<Seq<char>>,
)
    ensures
        m3u8_body(pairs.push(p), root, outdir) == m3u8_body(pairs, root, outdir) + m3u8_line(
            p.1,
            root,
            outdir,
        ) + seq!['\n'],
    decreases pairs.len(),
{
    if pairs.len() == 0 {
        assert(pairs.push(p)[0] == p);
        assert(pairs.push(p).skip(1) =~= pairs);
        assert(m3u8_body(pairs.push(p), root, outdir) =~= m3u8_body(pairs, root, outdir)
            + m3u8_line(p.1, root, outdir) + seq!['\n']);
    } else {
        assert(pairs.push(p)[0] == pairs[0]);
        assert(pairs.push(p).skip(1) =~= pairs.skip(1).push(p));
        lemma_m3u8_body_push(pairs.skip(1), p, root, outdir);
        assert(m3u8_body(pairs.push(p), root, outdir) =~= m3u8_body(pairs, root, outdir)
            + m3u8_line(p.1, root, outdir) + seq!['\n']);
    }
}

/// Whether every playlist line can be computed: each joined file's path and
/// the playlist's directory are canonical.
pub open spec fn playlist_computable(
    pairs: Seq<(RecommendationEntry, FileRecord)>,
    root_absolute: bool,
    root: Seq<Seq<char>>,
    outdir_absolute: bool,
    outdir: Seq<Seq<char>>,
) -> bool {
    forall|j: int|
        0 <= j < pairs.len() ==> canonical_comps(
            root_absolute,
            root + record_comps((#[trigger] pairs[j]).1),
        ) && canonical_comps(outdir_absolute, outdir)
}

proof fn lemma_matched_concat(
    a: Seq<RecommendationEntry>,
    b: Seq<RecommendationEntry>,
    records: Seq<FileRecord>,
)
    ensures
        matched(a + b, records) == matched(a, records) + matched(b, records),
    decreases a.len(),
{
    if a.len() == 0 {
        assert(a + b =~= b);
        assert(matched(a, records) + matched(b, records) =~= matched(b, records));
    } else {
        assert((a + b)[0] == a[0]);
        assert((a + b).skip(1) =~= a.skip(1) + b);
        lemma_matched_concat(a.skip(1), b, records);
        match spec_find_record(records, a[0].item_id) {
            Some(rec) => {
                assert(seq![(a[0], rec)] + (matched(a.skip(1), records) + matched(b, records)) =~= (
                seq![(a[0], rec)] + matched(a.skip(1), records)) + matched(b, records));
            },
            None => {},
        }
    }
}

/// Renders the playlist for the joined pairs: the `#EXTM3U` header, then one
/// line per recommendation with a matching record, in retrieval order, each
/// line the file's path relative to `out_dir`. Fails, writing nothing, when
/// some line's relative path cannot be computed.
pub fn render_m3u8(
    entries: &Vec<RecommendationEntry>,
    records: &Vec<FileRecord>,
    library_root: &LibPath,
    out_dir: &LibPath,
) -> (r: Result<Vec<char>, PipelineError>)
    ensures
        r is Ok <==> playlist_computable(
            matched(entries@, records@),
            library_root.absolute,
            library_root.comps(),
            out_dir.absolute,
            out_dir.comps(),
        ),
        r matches Ok(text) ==> text@ == m3u8_of(
            entries@,
            records@,
            library_root.comps(),
            out_dir.comps(),
        ),
        r matches Err(e) ==> e == PipelineError::PathError,
{
    let mut out: Vec<char> = Vec::new();
    out.push('#');
    out.push('E');
    out.push('X');
    out.push('T');
    out.push('M');
    out.push('3');
    out.push('U');
    out.push('\n');
    proof {
        assert(matched(entries@.take(0), records@) =~= Seq::<
            (RecommendationEntry, FileRecord),
        >::empty());
        assert(out@ =~= m3u8_header() + m3u8_body(
            matched(entries@.take(0), records@),
            library_root.comps(),
            out_dir.comps(),
        ));
    }
    let mut i: usize = 0;
    while i < entries.len()
        invariant
            0 <= i <= entries@.len(),
            out@ == m3u8_header() + m3u8_body(
                matched(entries@.take(i as int), records@),
                library_root.comps(),
                out_dir.comps(),
            ),
            playlist_computable(
                matched(entries@.take(i as int), records@),
                library_root.absolute,
                library_root.comps(),
                out_dir.absolute,
                out_dir.comps(),
            ),
        decreases entries@.len() - i,
    {
        let e = entries[i];
        let ghost done = matched(entries@.take(i as int), records@);
        proof {
            lemma_matched_push(entries@.take(i as int), e, records@);
            assert(entries@.take(i as int).push(e) =~= entries@.take(i + 1));
        }
        match find_record(records, e.item_id) {
            Some(ri) => {
                let target = record_path(library_root, &records[ri]);
                match relativize(&target, out_dir) {
                    Some(rel) => {
                        let line = display_path(&rel);
                        push_chars(&mut out, &line);
                        out.push('\n');
                        proof {
                            lemma_m3u8_body_push(
                                done,
                                (e, records@[ri as int]),
                                library_root.comps(),
                                out_dir.comps(),
                            );
                            assert(matched(entries@.take(i + 1), records@) =~= done.push(
                                (e, records@[ri as int]),
                            ));
                            assert(out@ =~= m3u8_header() + m3u8_body(
                                matched(entries@.take(i + 1), records@),
                                library_root.comps(),
                                out_dir.comps(),
                            ));
                        }
                    },
                    None => {
                        proof {
                            let all = matched(entries@, records@);
                            let w = done.len() as int;
                            assert(entries@.take(i + 1) + entries@.skip(i + 1) =~= entries@);
                            lemma_matched_concat(entries@.take(i + 1), entries@.skip(i + 1), records@);
                            assert(all[w] == (e, records@[ri as int]));
                            assert(!(canonical_comps(
                                library_root.absolute,
                                library_root.comps() + record_comps(all[w].1),
                            ) && canonical_comps(out_dir.absolute, out_dir.comps())));
                        }
                        return Err(PipelineError::PathError);
                    },
                }
            },
            None => {},
        }
        i = i + 1;
    }
    proof {
        assert(entries@.take(entries@.len() as int) =~= entries@);
    }
    Ok(out)
}

/// The selectors are usable as file extensions.
pub proof fn lemma_selectors_valid()
    ensures
        valid_extension(json_selector()),
        valid_extension(m3u8_selector()),
{
    assert forall|k: int| 0 <= k < json_selector().len() implies json_selector()[k] != '.'
        && json_selector()[k] != '/' by {
        if k == 0 {
        } else if k == 1 {
        } else if k == 2 {
        }
    }
    assert(!json_selector().contains('.'));
    assert(!json_selector().contains('/'));
    assert forall|k: int| 0 <= k < m3u8_selector().len() implies m3u8_selector()[k] != '.'
        && m3u8_selector()[k] != '/' by {
        if k == 0 {
        } else if k == 1 {
        } else if k == 2 {
        }
    }
    assert(!m3u8_selector().contains('.'));
    assert(!m3u8_selector().contains('/'));
}

fn json_chars() -> (v: Vec<char>)
    ensures
        v@ == json_selector(),
{
    let mut v: Vec<char> = Vec::new();
    v.push('j');
    v.push('s');
    v.push('o');
    v.push('n');
    proof {
        assert(v@ =~= json_selector());
    }
    v
}

fn m3u8_chars() -> (v: Vec<char>)
    ensures
        v@ == m3u8_selector(),
{
    let mut v: Vec<char> = Vec::new();
    v.push('m');
    v.push('3');
    v.push('u');
    v.push('8');
    proof {
        assert(v@ =~= m3u8_selector());
    }
    v
}

/// The view of an optional format selector.
pub open spec fn format_view(format: Option<Vec<char>>) -> Option<Seq<char>> {
    match format {
        Some(f) => Some(f@),
        None => None,
    }
}

/// The directory a playlist file lives in: its path without the file itself.
pub open spec fn playlist_dir(parts: Seq<Seq<char>>) -> Seq<Seq<char>> {
    if parts.len() > 0 {
        parts.drop_last()
    } else {
        parts
    }
}

/// What the renderer produces: rows for the interactive table, or a file to
/// be written at a path, with a flag that says whether the path's extension
/// had to be corrected.
#[derive(Debug)]
pub enum RenderOutput {
    TableRows(Vec<TableRow>),
    FileArtifact { path: LibPath, contents: Vec<char>, extension_corrected: bool },
}

/// Renders the recommendations in the selected format. No format renders the
/// table rows; `json` renders the raw entries as a JSON document and `m3u8`
/// renders the joined pairs as a playlist, each at the output path joined
/// under the library root with its extension normalized; the file formats
/// demand an output path, and any other selector is unsupported.
pub fn render(
    entries: &Vec<RecommendationEntry>,
    records: &Vec<FileRecord>,
    format: &Option<Vec<char>>,
    output: &Option<LibPath>,
    library_root: &LibPath,
) -> (r: Result<RenderOutput, PipelineError>)
    ensures
        spec_parse_format(format_view(*format)) == OutputFormat::Table ==> (r matches Ok(
            RenderOutput::TableRows(rows),
        ) && rows@.len() == matched(entries@, records@).len() && (forall|j: int|
            0 <= j < rows@.len() ==> (#[trigger] rows@[j]).texts() == row_texts(
                matched(entries@, records@)[j].0,
                matched(entries@, records@)[j].1,
                library_root.absolute,
                library_root.comps(),
            ))),
        spec_parse_format(format_view(*format)) == OutputFormat::Unsupported ==> r == Err::<
            RenderOutput,
            PipelineError,
        >(PipelineError::UnsupportedFormat),
        (spec_parse_format(format_view(*format)) == OutputFormat::Json || spec_parse_format(
            format_view(*format),
        ) == OutputFormat::M3u8) && *output is None ==> r == Err::<RenderOutput, PipelineError>(
            PipelineError::UsageError,
        ),
        *output matches Some(op) ==> (spec_parse_format(format_view(*format))
            == OutputFormat::Json ==> (r matches Ok(
            RenderOutput::FileArtifact { path, contents, extension_corrected },
        )
            && path.absolute == spec_join(
            library_root.absolute,
            library_root.comps(),
            op.absolute,
            op.comps(),
        ).0 && path.comps() == spec_normalize(
            spec_join(library_root.absolute, library_root.comps(), op.absolute, op.comps()).1,
            json_selector(),
        ) && contents@ == json_of(entries@) && extension_corrected == (spec_normalize(
            spec_join(library_root.absolute, library_root.comps(), op.absolute, op.comps()).1,
            json_selector(),
        ) != spec_join(library_root.absolute, library_root.comps(), op.absolute, op.comps()).1))),
        *output matches Some(op) ==> (spec_parse_format(format_view(*format))
            == OutputFormat::M3u8 ==> {
            let joined = spec_join(
                library_root.absolute,
                library_root.comps(),
                op.absolute,
                op.comps(),
            );
            let norm = spec_normalize(joined.1, m3u8_selector());
            let computable = playlist_computable(
                matched(entries@, records@),
                library_root.absolute,
                library_root.comps(),
                joined.0,
                playlist_dir(norm),
            );
            &&& computable ==> (r matches Ok(
                RenderOutput::FileArtifact { path, contents, extension_corrected },
            ) && path.absolute == joined.0 && path.comps() == norm && contents@ == m3u8_of(
                entries@,
                records@,
                library_root.comps(),
                playlist_dir(norm),
            ) && extension_corrected == (norm != joined.1))
            &&& !computable ==> r == Err::<RenderOutput, PipelineError>(PipelineError::PathError)
        }),
{
    let fmt = parse_format(format);
    match fmt {
        OutputFormat::Table => {
            let rows = render_table_rows(entries, records, library_root);
            Ok(RenderOutput::TableRows(rows))
        },
        OutputFormat::Unsupported => Err(PipelineError::UnsupportedFormat),
        OutputFormat::Json => match output {
            None => Err(PipelineError::UsageError),
            Some(op) => {
                let joined = join_path(library_root, op);
                let ext = json_chars();
                proof {
                    lemma_selectors_valid();
                }
                let path = check_and_correct_extension(&joined, &ext);
                let corrected = !crate::paths::paths_equal(&path, &joined);
                let contents = render_json(entries);
                Ok(RenderOutput::FileArtifact { path, contents, extension_corrected: corrected })
            },
        },
        OutputFormat::M3u8 => match output {
            None => Err(PipelineError::UsageError),
            Some(op) => {
                let joined = join_path(library_root, op);
                let ext = m3u8_chars();
                proof {
                    lemma_selectors_valid();
                }
                let path = check_and_correct_extension(&joined, &ext);
                let corrected = !crate::paths::paths_equal(&path, &joined);
                let out_dir = parent_dir(&path);
                match render_m3u8(entries, records, library_root, &out_dir) {
                    Ok(contents) => Ok(
                        RenderOutput::FileArtifact {
                            path,
                            contents,
                            extension_corrected: corrected,
                        },
                    ),
                    Err(e) => Err(e),
                }
            },
        },
    }
}

} // verus!
