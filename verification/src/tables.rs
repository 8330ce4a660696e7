//! Reading the LDBC CSV tables: `|`-delimited files (gzip-compressed in an
//! SNB snapshot) whose first record names the columns; a loader asks for
//! some columns by name and gets, for every further record, those fields in
//! that order. Also the plain-value view of a property graph that the
//! loaders' contracts speak of.
use std::io::Read;
use vstd::prelude::*;
use crate::rdfgraph::{opt_texts, prop_rows, rel_rows, text_copy, text_lists, texts, PropGraph};
use crate::rdfload::same_text;
use crate::text::chars_of;
use crate::numtext::{parse_i64_text, text_i64};

verus! {

/// The records of `bytes` read as CSV with the given delimiter, each as its
/// fields' text (the first record included).
pub uninterp spec fn csv_records(bytes: Seq<u8>, delimiter: u8) -> Seq<Seq<Seq<char>>>;

/// The bytes that gzip decoding of `bytes` gives.
pub uninterp spec fn gunzip_bytes(bytes: Seq<u8>) -> Seq<u8>;

/// The records of `bytes` as CSV (`csv::ReaderBuilder` with the delimiter
/// and no header handling, so the header is the first record; `flexible`
/// lets records differ in length, which otherwise is an error). On success
/// the records are the named [`csv_records`] of the bytes, whichever
/// `flexible` is; a malformed input gives the reader's error text, of which
/// nothing is stated.
#[verifier::external_body]
fn csv_rows(bytes: &[u8], delimiter: u8, flexible: bool) -> (r: Result<Vec<Vec<String>>, String>)
    ensures
        r matches Ok(rows) ==> text_lists(rows@) == csv_records(bytes@, delimiter),
{
    let mut reader = csv::ReaderBuilder::new().delimiter(delimiter).has_headers(false).flexible(flexible).from_reader(bytes);
    let mut out: Vec<Vec<String>> = Vec::new();
    for record in reader.records() {
        match record {
            Ok(rec) => out.push(rec.iter().map(|f| f.to_string()).collect()),
            Err(e) => return Err(e.to_string()),
        }
    }
    Ok(out)
}

/// The gzip decoding of `bytes` (`flate2::read::GzDecoder`, read to the
/// end). On success the bytes are the named [`gunzip_bytes`] of the input;
/// nothing is stated of when decoding fails.
#[verifier::external_body]
fn gunzip(bytes: &[u8]) -> (r: Option<Vec<u8>>)
    ensures
        r matches Some(b) ==> b@ == gunzip_bytes(bytes@),
{
    let mut out: Vec<u8> = Vec::new();
    match flate2::read::GzDecoder::new(bytes).read_to_end(&mut out) {
        Ok(_) => Some(out),
        Err(_) => None,
    }
}

/// The position of the first field of `header` that is `col`.
pub open spec fn column_index(header: Seq<Seq<char>>, col: Seq<char>, i: int) -> Option<int>
    decreases header.len() - i,
{
    if 0 <= i < header.len() {
        if header[i] == col {
            Some(i)
        } else {
            column_index(header, col, i + 1)
        }
    } else {
        None
    }
}

/// The first of the requested columns `cols` that `header` lacks.
pub open spec fn missing_column(header: Seq<Seq<char>>, cols: Seq<Seq<char>>, j: int) -> Option<Seq<char>>
    decreases j,
{
    if j <= 0 {
        None
    } else {
        match missing_column(header, cols, j - 1) {
            Some(c) => Some(c),
            None => if column_index(header, cols[j - 1], 0) is None {
                Some(cols[j - 1])
            } else {
                None
            },
        }
    }
}

/// Field `i` of a record, empty when the record is shorter.
pub open spec fn field_or_empty(record: Seq<Seq<char>>, i: int) -> Seq<char> {
    if 0 <= i < record.len() {
        record[i]
    } else {
        Seq::empty()
    }
}

/// The requested columns of one record.
pub open spec fn picked(header: Seq<Seq<char>>, cols: Seq<Seq<char>>, record: Seq<Seq<char>>) -> Seq<Seq<char>> {
    cols.map_values(|c: Seq<char>| field_or_empty(record, column_index(header, c, 0).unwrap_or(-1)))
}

/// What a table of `records` (the first naming the columns) gives for the
/// columns `cols`: the first missing column, or the requested fields of
/// every further record, in order.
pub open spec fn selected(records: Seq<Seq<Seq<char>>>, cols: Seq<Seq<char>>) -> Result<Seq<Seq<Seq<char>>>, Seq<char>> {
    let header = if records.len() > 0 {
        records[0]
    } else {
        Seq::empty()
    };
    match missing_column(header, cols, cols.len() as int) {
        Some(c) => Err(c),
        None => Ok(
            records.subrange(if records.len() > 0 { 1 } else { 0 }, records.len() as int).map_values(
                |r: Seq<Seq<char>>| picked(header, cols, r),
            ),
        ),
    }
}

/// The first position of `col` in `header`.
fn find_column(header: &Vec<String>, col: &str) -> (r: Option<usize>)
    ensures
        r matches Some(i) ==> column_index(texts(header@), col@, 0) == Some(i as int),
        r is None ==> column_index(texts(header@), col@, 0) is None,
{
    let mut i: usize = 0;
    while i < header.len()
        invariant
            i <= header@.len(),
            column_index(texts(header@), col@, 0) == column_index(texts(header@), col@, i as int),
        decreases header.len() - i,
    {
        if same_text(header[i].as_str(), col) {
            proof {
                assert(texts(header@)[i as int] == col@);
            }
            return Some(i);
        }
        proof {
            assert(texts(header@)[i as int] != col@);
        }
        i = i + 1;
    }
    None
}

/// The columns `cols` of the records after the first, which names them:
/// for each record, the field under each requested column (empty where the
/// record is shorter); the first requested column the header lacks is an
/// error.
pub fn select_columns(records: &Vec<Vec<String>>, cols: &Vec<&str>) -> (r: Result<Vec<Vec<String>>, String>)
    ensures
        match selected(text_lists(records@), cols@.map_values(|c: &str| c@)) {
            Ok(rows) => r matches Ok(v) && text_lists(v@) == rows,
            Err(c) => r matches Err(e) && e@ == c,
        },
{
    let empty: Vec<String> = Vec::new();
    let header: &Vec<String> = if records.len() > 0 {
        &records[0]
    } else {
        &empty
    };
    let ghost h = texts(header@);
    let ghost cs = cols@.map_values(|c: &str| c@);
    proof {
        assert(h == if text_lists(records@).len() > 0 {
            text_lists(records@)[0]
        } else {
            Seq::empty()
        });
    }
    let mut idx: Vec<usize> = Vec::new();
    let mut j: usize = 0;
    while j < cols.len()
        invariant
            j <= cols@.len(),
            h == texts(header@),
            h == (if text_lists(records@).len() > 0 {
                text_lists(records@)[0]
            } else {
                Seq::empty()
            }),
            cs == cols@.map_values(|c: &str| c@),
            missing_column(h, cs, j as int) is None,
            idx@.len() == j,
            forall|q: int| 0 <= q < j ==> column_index(h, cs[q], 0) == Some(#[trigger] idx@[q] as int),
        decreases cols.len() - j,
    {
        proof {
            assert(cs[j as int] == cols@[j as int]@);
        }
        match find_column(header, cols[j]) {
            Some(i) => {
                idx.push(i);
            },
            None => {
                proof {
                    assert(cs[j as int] == cols@[j as int]@);
                    assert(missing_column(h, cs, j + 1) == Some(cs[j as int]));
                    lemma_missing_stays(h, cs, j + 1, cs.len() as int);
                    let hh = if text_lists(records@).len() > 0 {
                        text_lists(records@)[0]
                    } else {
                        Seq::empty()
                    };
                    assert(hh == h);
                    assert(cs == cols@.map_values(|c: &str| c@));
                    assert(selected(text_lists(records@), cs) == Err::<Seq<Seq<Seq<char>>>, Seq<char>>(cs[j as int]));
                }
                return Err(text_copy(cols[j]));
            },
        }
        j = j + 1;
    }
    let mut out: Vec<Vec<String>> = Vec::new();
    let start: usize = if records.len() > 0 {
        1
    } else {
        0
    };
    let ghost body = text_lists(records@).subrange(start as int, records@.len() as int);
    let mut k: usize = start;
    while k < records.len()
        invariant
            start <= k <= records@.len(),
            body == text_lists(records@).subrange(start as int, records@.len() as int),
            h == texts(header@),
            cs == cols@.map_values(|c: &str| c@),
            idx@.len() == cols@.len(),
            forall|q: int| 0 <= q < cols@.len() ==> column_index(h, cs[q], 0) == Some(#[trigger] idx@[q] as int),
            text_lists(out@) == body.take(k - start).map_values(|r: Seq<Seq<char>>| picked(h, cs, r)),
        decreases records.len() - k,
    {
        let rec = &records[k];
        let mut vals: Vec<String> = Vec::new();
        let mut q: usize = 0;
        while q < idx.len()
            invariant
                q <= idx@.len(),
                idx@.len() == cols@.len(),
                h == texts(header@),
                cs == cols@.map_values(|c: &str| c@),
                forall|x: int| 0 <= x < cols@.len() ==> column_index(h, cs[x], 0) == Some(#[trigger] idx@[x] as int),
                texts(vals@) == picked(h, cs, texts(rec@)).take(q as int),
            decreases idx.len() - q,
        {
            let i = idx[q];
            let v = if i < rec.len() {
                text_copy(rec[i].as_str())
            } else {
                String::new()
            };
            let ghost before = texts(vals@);
            vals.push(v);
            proof {
                assert(column_index(h, cs[q as int], 0) == Some(idx@[q as int] as int));
                assert(picked(h, cs, texts(rec@))[q as int] == field_or_empty(texts(rec@), i as int));
                assert(texts(vals@) =~= before.push(v@));
                assert(texts(vals@) =~= picked(h, cs, texts(rec@)).take(q + 1));
            }
            q = q + 1;
        }
        let ghost before_out = text_lists(out@);
        out.push(vals);
        proof {
            assert(picked(h, cs, texts(rec@)).take(q as int) =~= picked(h, cs, texts(rec@)));
            assert(body[k - start] == texts(rec@));
            assert(text_lists(out@) =~= before_out.push(texts(vals@)));
            assert(body.take(k + 1 - start) =~= body.take(k - start).push(body[k - start]));
            assert(text_lists(out@) =~= body.take(k + 1 - start).map_values(|r: Seq<Seq<char>>| picked(h, cs, r)));
        }
        k = k + 1;
    }
    proof {
        assert(body.take(k - start) =~= body);
    }
    Ok(out)
}

proof fn lemma_missing_stays(h: Seq<Seq<char>>, cs: Seq<Seq<char>>, j: int, m: int)
    requires
        j <= m,
        missing_column(h, cs, j) is Some,
    ensures
        missing_column(h, cs, m) == missing_column(h, cs, j),
    decreases m - j,
{
    if j < m {
        lemma_missing_stays(h, cs, j, m - 1);
    }
}

/// The requested columns of one table file: gzip-decoded when `gz`, read as
/// `|`-delimited CSV, then [`select_columns`]. `None` when decoding or
/// reading fails; `Some(Err(column))` when the header lacks a column.
pub fn read_table(bytes: &[u8], gz: bool, flexible: bool, cols: &Vec<&str>) -> (r: Option<Result<Vec<Vec<String>>, String>>)
    ensures
        r matches Some(res) ==> {
            let plain = if gz {
                gunzip_bytes(bytes@)
            } else {
                bytes@
            };
            match selected(csv_records(plain, 124u8), cols@.map_values(|c: &str| c@)) {
                Ok(rows) => res matches Ok(v) && text_lists(v@) == rows,
                Err(c) => res matches Err(e) && e@ == c,
            }
        },
{
    let records = if gz {
        match gunzip(bytes) {
            Some(plain) => csv_rows(plain.as_slice(), 124u8, flexible),
            None => return None,
        }
    } else {
        csv_rows(bytes, 124u8, flexible)
    };
    match records {
        Ok(rows) => Some(select_columns(&rows, cols)),
        Err(_) => None,
    }
}

/// Integer properties of relationships as plain values.
pub open spec fn rel_prop_rows(v: Seq<(usize, String, i64)>) -> Seq<(int, Seq<char>, i64)> {
    v.map_values(|p: (usize, String, i64)| (p.0 as int, p.1@, p.2))
}

/// A property graph as plain values.
pub struct GraphView {
    pub labels: Seq<Seq<Seq<char>>>,
    pub uris: Seq<Option<Seq<char>>>,
    pub rels: Seq<(u32, u32, Seq<char>)>,
    pub props: Seq<(u32, Seq<char>, Seq<char>, Option<Seq<char>>)>,
    pub rel_props: Seq<(int, Seq<char>, i64)>,
}

/// The plain values of a property graph.
pub open spec fn graph_view(g: PropGraph) -> GraphView {
    GraphView {
        labels: text_lists(g.labels@),
        uris: opt_texts(g.uris@),
        rels: rel_rows(g.rels@),
        props: prop_rows(g.props@),
        rel_props: rel_prop_rows(g.rel_props@),
    }
}

/// The graph with nothing in it.
pub open spec fn empty_view() -> GraphView {
    GraphView {
        labels: Seq::empty(),
        uris: Seq::empty(),
        rels: Seq::empty(),
        props: Seq::empty(),
        rel_props: Seq::empty(),
    }
}

/// A graph with nothing in it.
pub fn empty_graph() -> (g: PropGraph)
    ensures
        graph_view(g) == empty_view(),
        g.labels@.len() == 0,
        g.rels@.len() == 0,
{
    let g = PropGraph { labels: Vec::new(), uris: Vec::new(), rels: Vec::new(), props: Vec::new(), rel_props: Vec::new() };
    proof {
        assert(graph_view(g).labels =~= Seq::<Seq<Seq<char>>>::empty());
        assert(graph_view(g).uris =~= Seq::<Option<Seq<char>>>::empty());
        assert(graph_view(g).rels =~= Seq::<(u32, u32, Seq<char>)>::empty());
        assert(graph_view(g).props =~= Seq::<(u32, Seq<char>, Seq<char>, Option<Seq<char>>)>::empty());
        assert(graph_view(g).rel_props =~= Seq::<(int, Seq<char>, i64)>::empty());
    }
    g
}

/// Field `i` of a row, empty when the row is shorter.
pub fn field_of(row: &Vec<String>, i: usize) -> (r: &str)
    ensures
        r@ == field_or_empty(texts(row@), i as int),
{
    if i < row.len() {
        row[i].as_str()
    } else {
        proof {
            reveal_strlit("");
        }
        ""
    }
}

/// The integer a text reads as (`str::parse::<i64>`), 0 when it does not read.
pub open spec fn int_or_zero(t: Seq<char>) -> i64 {
    match text_i64(t) {
        Some(v) => v,
        None => 0,
    }
}

/// `s.parse::<i64>().unwrap_or(0)`.
pub fn int_or_zero_of(s: &str) -> (r: i64)
    ensures
        r == int_or_zero(s@),
{
    let cs = chars_of(s);
    match parse_i64_text(cs.as_slice()) {
        Some(v) => v,
        None => 0,
    }
}

/// The requested columns of the files of one table, in order: each file's
/// selected rows one after another, or the first file's missing column.
pub open spec fn files_selected(files: Seq<Seq<u8>>, gz: bool, cols: Seq<Seq<char>>) -> Result<Seq<Seq<Seq<char>>>, Seq<char>>
    decreases files.len(),
{
    if files.len() == 0 {
        Ok(Seq::empty())
    } else {
        match files_selected(files.drop_last(), gz, cols) {
            Err(c) => Err(c),
            Ok(before) => {
                let plain = if gz {
                    gunzip_bytes(files.last())
                } else {
                    files.last()
                };
                match selected(csv_records(plain, 124u8), cols) {
                    Err(c) => Err(c),
                    Ok(rows) => Ok(before + rows),
                }
            },
        }
    }
}

/// The files of a table as plain byte sequences.
pub open spec fn file_bytes(files: Seq<Vec<u8>>) -> Seq<Seq<u8>> {
    files.map_values(|f: Vec<u8>| f@)
}

/// [`read_table`] over the files of one table, their rows one after another.
/// `None` when a file does not decode or read; otherwise the rows, or the
/// first missing column, as [`files_selected`] says.
pub fn read_files(files: &Vec<Vec<u8>>, gz: bool, flexible: bool, cols: &Vec<&str>) -> (r: Option<Result<Vec<Vec<String>>, String>>)
    ensures
        r matches Some(res) ==> match files_selected(file_bytes(files@), gz, cols@.map_values(|c: &str| c@)) {
            Ok(rows) => res matches Ok(v) && text_lists(v@) == rows,
            Err(c) => res matches Err(e) && e@ == c,
        },
{
    let ghost fs = file_bytes(files@);
    let ghost cs = cols@.map_values(|c: &str| c@);
    let mut out: Vec<Vec<String>> = Vec::new();
    let mut i: usize = 0;
    proof {
        assert(fs.take(0) =~= Seq::<Seq<u8>>::empty());
        assert(text_lists(out@) =~= Seq::<Seq<Seq<char>>>::empty());
    }
    while i < files.len()
        invariant
            i <= files@.len(),
            fs == file_bytes(files@),
            cs == cols@.map_values(|c: &str| c@),
            files_selected(fs.take(i as int), gz, cs) == Ok::<Seq<Seq<Seq<char>>>, Seq<char>>(text_lists(out@)),
        decreases files.len() - i,
    {
        proof {
            assert(fs.take(i + 1).drop_last() =~= fs.take(i as int));
            assert(fs.take(i + 1).last() == files@[i as int]@);
        }
        match read_table(files[i].as_slice(), gz, flexible, cols) {
            None => {
                return None;
            },
            Some(Err(c)) => {
                proof {
                    lemma_files_err_stays(fs, gz, cs, i + 1, fs.len() as int);
                    assert(fs.take(fs.len() as int) =~= fs);
                }
                return Some(Err(c));
            },
            Some(Ok(rows)) => {
                let ghost before = text_lists(out@);
                let mut k: usize = 0;
                while k < rows.len()
                    invariant
                        k <= rows@.len(),
                        text_lists(out@) == before + text_lists(rows@).take(k as int),
                    decreases rows.len() - k,
                {
                    let ghost prev = out@;
                    let row = text_rows_copy(&rows[k]);
                    out.push(row);
                    proof {
                        assert(text_lists(out@) =~= text_lists(prev).push(texts(row@)));
                        assert(text_lists(rows@).take(k + 1) =~= text_lists(rows@).take(k as int).push(texts(rows@[k as int]@)));
                        assert(before + text_lists(rows@).take(k + 1) =~= (before + text_lists(rows@).take(k as int)).push(
                            texts(rows@[k as int]@),
                        ));
                    }
                    k = k + 1;
                }
                proof {
                    assert(text_lists(rows@).take(k as int) =~= text_lists(rows@));
                }
            },
        }
        i = i + 1;
    }
    proof {
        assert(fs.take(i as int) =~= fs);
    }
    Some(Ok(out))
}

proof fn lemma_files_err_stays(fs: Seq<Seq<u8>>, gz: bool, cs: Seq<Seq<char>>, j: int, m: int)
    requires
        0 <= j <= m <= fs.len(),
        files_selected(fs.take(j), gz, cs) is Err,
    ensures
        files_selected(fs.take(m), gz, cs) == files_selected(fs.take(j), gz, cs),
    decreases m - j,
{
    if j < m {
        lemma_files_err_stays(fs, gz, cs, j, m - 1);
        assert(fs.take(m).drop_last() =~= fs.take(m - 1));
    }
}

/// A copy of a row of texts.
fn text_rows_copy(row: &Vec<String>) -> (r: Vec<String>)
    ensures
        texts(r@) == texts(row@),
{
    let mut out: Vec<String> = Vec::new();
    let mut k: usize = 0;
    while k < row.len()
        invariant
            k <= row@.len(),
            texts(out@) == texts(row@).take(k as int),
        decreases row.len() - k,
    {
        let ghost prev = out@;
        let t = text_copy(row[k].as_str());
        out.push(t);
        proof {
            assert(texts(out@) =~= texts(prev).push(t@));
            assert(texts(row@).take(k + 1) =~= texts(row@).take(k as int).push(row@[k as int]@));
        }
        k = k + 1;
    }
    proof {
        assert(texts(row@).take(k as int) =~= texts(row@));
    }
    out
}

} // verus!
