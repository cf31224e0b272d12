//! The row source: parses semicolon-delimited text with a header row into
//! records. The header names the columns; a required column that the header
//! lacks, a data row whose field count differs from the header's, or a page
//! number that is not an unsigned decimal integer fails the whole read, the
//! first such fault winning.

use vstd::prelude::*;

use crate::record::ParseError;
use crate::record::Record;
use crate::record::RecordView;
use crate::text::content_lines;
use crate::text::content_lines_of;
use crate::text::split_fields;
use crate::text::split_on;

verus! {

/// The position of the first field equal to `name`, if any.
pub open spec fn find_name(fields: Seq<Seq<char>>, name: Seq<char>) -> Option<int>
    decreases fields.len(),
{
    if fields.len() == 0 {
        None
    } else if fields[0] == name {
        Some(0)
    } else {
        match find_name(fields.drop_first(), name) {
            Some(i) => Some(i + 1),
            None => None,
        }
    }
}

/// Skipping a prefix that does not hold `name` shifts the found position.
pub proof fn lemma_find_name_skip(fields: Seq<Seq<char>>, name: Seq<char>, i: int)
    requires
        0 <= i <= fields.len(),
        forall|j: int| 0 <= j < i ==> fields[j] != name,
    ensures
        find_name(fields, name) == match find_name(
            fields.subrange(i, fields.len() as int),
            name,
        ) {
            Some(k) => Some(i + k),
            None => None::<int>,
        },
    decreases i,
{
    if i == 0 {
        assert(fields.subrange(0, fields.len() as int) =~= fields);
        match find_name(fields, name) {
            Some(k) => {},
            None => {},
        }
    } else {
        assert(fields.len() > 0);
        assert(fields[0] != name);
        let rest = fields.drop_first();
        assert(forall|j: int| 0 <= j < i - 1 ==> rest[j] != name);
        lemma_find_name_skip(rest, name, i - 1);
        assert(rest.subrange(i - 1, rest.len() as int) =~= fields.subrange(
            i,
            fields.len() as int,
        ));
    }
}

/// First position of a field equal to `name`, matching `find_name`.
pub fn find_column(fields: &Vec<String>, name: &str) -> (r: Option<usize>)
    ensures
        match r {
            Some(i) => i < fields@.len() && find_name(
                fields@.map_values(|f: String| f@),
                name@,
            ) == Some(i as int),
            None => find_name(fields@.map_values(|f: String| f@), name@) is None,
        },
{
    let ghost fs = fields@.map_values(|f: String| f@);
    let name_s = name.to_owned();
    let mut i: usize = 0;
    while i < fields.len()
        invariant
            fs == fields@.map_values(|f: String| f@),
            name_s@ == name@,
            i <= fields@.len(),
            forall|j: int| 0 <= j < i ==> fs[j] != name@,
        decreases fields@.len() - i,
    {
        let f = &fields[i];
        if f.eq(&name_s) {
            proof {
                lemma_find_name_skip(fs, name@, i as int);
                let rem = fs.subrange(i as int, fs.len() as int);
                assert(rem[0] == fs[i as int]);
                assert(find_name(rem, name@) == Some(0int));
            }
            return Some(i);
        }
        i = i + 1;
    }
    proof {
        lemma_find_name_skip(fs, name@, fs.len() as int);
        assert(fs.subrange(fs.len() as int, fs.len() as int) =~= Seq::<Seq<char>>::empty());
    }
    None
}

/// A decimal digit and its value.
pub open spec fn is_digit(c: char) -> bool {
    '0' <= c <= '9'
}

pub open spec fn digit_val(c: char) -> int {
    c as int - '0' as int
}

/// A nonempty run of decimal digits: the only shape a page number may have.
pub open spec fn is_digit_seq(s: Seq<char>) -> bool {
    s.len() > 0 && forall|i: int| 0 <= i < s.len() ==> is_digit(#[trigger] s[i])
}

/// The value of a digit run read as a decimal numeral.
pub open spec fn dec_val(s: Seq<char>) -> int
    decreases s.len(),
{
    if s.len() == 0 {
        0
    } else {
        dec_val(s.drop_last()) * 10 + digit_val(s.last())
    }
}

pub proof fn lemma_dec_val_nonneg(s: Seq<char>)
    requires
        forall|i: int| 0 <= i < s.len() ==> is_digit(#[trigger] s[i]),
    ensures
        dec_val(s) >= 0,
    decreases s.len(),
{
    if s.len() > 0 {
        assert(forall|i: int| 0 <= i < s.drop_last().len() ==> is_digit(#[trigger] s.drop_last()[i]));
        lemma_dec_val_nonneg(s.drop_last());
    }
}

/// A numeral is at least as large as any of its prefixes.
pub proof fn lemma_dec_val_prefix(s: Seq<char>, i: int)
    requires
        forall|j: int| 0 <= j < s.len() ==> is_digit(#[trigger] s[j]),
        0 <= i <= s.len(),
    ensures
        dec_val(s.subrange(0, i)) <= dec_val(s),
    decreases s.len() - i,
{
    if i == s.len() {
        assert(s.subrange(0, i) =~= s);
    } else {
        let shorter = s.subrange(0, i);
        let longer = s.subrange(0, i + 1);
        assert(longer.drop_last() =~= shorter);
        assert(longer.last() == s[i]);
        assert(forall|j: int| 0 <= j < shorter.len() ==> is_digit(#[trigger] shorter[j]));
        lemma_dec_val_nonneg(shorter);
        assert(dec_val(longer) == dec_val(shorter) * 10 + digit_val(s[i]));
        assert(dec_val(shorter) * 10 == dec_val(shorter) + 9 * dec_val(shorter));
        lemma_dec_val_prefix(s, i + 1);
    }
}

/// Read a page-number field: the whole field one unsigned decimal numeral
/// whose value the machine can hold, anything else refused.
pub fn parse_page_number(s: &str) -> (r: Option<usize>)
    ensures
        match r {
            Some(v) => is_digit_seq(s@) && v as int == dec_val(s@),
            None => !is_digit_seq(s@) || dec_val(s@) > usize::MAX as int,
        },
{
    let n = s.unicode_len();
    if n == 0 {
        return None;
    }
    let mut v: usize = 0;
    let mut i: usize = 0;
    proof {
        assert(s@.subrange(0, 0) =~= Seq::<char>::empty());
    }
    while i < n
        invariant
            n == s@.len(),
            i <= n,
            forall|j: int| 0 <= j < i ==> is_digit(#[trigger] s@[j]),
            v as int == dec_val(s@.subrange(0, i as int)),
        decreases n - i,
    {
        let c = s.get_char(i);
        if c < '0' || c > '9' {
            proof {
                assert(!is_digit(s@[i as int]));
            }
            return None;
        }
        let d = (c as u32 - '0' as u32) as usize;
        let ghost prefix = s@.subrange(0, i as int);
        let ghost extended = s@.subrange(0, i as int + 1);
        proof {
            assert(extended.drop_last() =~= prefix);
            assert(extended.last() == s@[i as int]);
            assert(dec_val(extended) == dec_val(prefix) * 10 + digit_val(s@[i as int]));
            assert(d as int == digit_val(s@[i as int]));
        }
        if v > usize::MAX / 10 {
            proof {
                assert((usize::MAX / 10) as int * 10 + 9 >= usize::MAX as int) by (nonlinear_arith);
                assert(v as int * 10 > usize::MAX as int - 9) by (nonlinear_arith)
                    requires
                        v as int > (usize::MAX / 10) as int,
                ;
                lemma_dec_val_nonneg(prefix);
                assert(dec_val(extended) > usize::MAX as int);
                if is_digit_seq(s@) {
                    lemma_dec_val_prefix(s@, i as int + 1);
                }
            }
            return None;
        }
        proof {
            assert(v as int * 10 <= (usize::MAX / 10) as int * 10) by (nonlinear_arith)
                requires
                    0 <= v as int <= (usize::MAX / 10) as int,
            ;
            assert((usize::MAX / 10) as int * 10 <= usize::MAX as int) by (nonlinear_arith);
        }
        let v10 = v * 10;
        if d > usize::MAX - v10 {
            proof {
                assert(dec_val(extended) > usize::MAX as int);
                if is_digit_seq(s@) {
                    lemma_dec_val_prefix(s@, i as int + 1);
                }
            }
            return None;
        }
        v = v10 + d;
        i = i + 1;
    }
    proof {
        assert(s@.subrange(0, n as int) =~= s@);
    }
    Some(v)
}

/// One data row read against the header, `idx` its position among the data
/// rows: the fields must be as many as the header's, the page number a
/// machine-sized decimal numeral; the comment is empty where the header has
/// no comment column, and the translation always starts absent.
pub open spec fn spec_parse_row(header: Seq<Seq<char>>, row: Seq<char>, idx: usize) -> Result<
    RecordView,
    ParseError,
> {
    let fields = split_on(row, ';');
    if fields.len() != header.len() {
        Err(ParseError::WrongFieldCount(idx))
    } else {
        let doc_col = match find_name(header, "document_name"@) {
            Some(i) => i,
            None => 0,
        };
        let src_col = match find_name(header, "text_original"@) {
            Some(i) => i,
            None => 0,
        };
        let page_col = match find_name(header, "page_number"@) {
            Some(i) => i,
            None => 0,
        };
        let page = fields[page_col];
        if !is_digit_seq(page) || dec_val(page) > usize::MAX as int {
            Err(ParseError::BadPageNumber(idx))
        } else {
            Ok(RecordView {
                document_name: fields[doc_col],
                source_text: fields[src_col],
                translated_text: None,
                page_number: dec_val(page),
                comment: match find_name(header, "comment"@) {
                    Some(i) => fields[i],
                    None => Seq::empty(),
                },
            })
        }
    }
}

/// All data rows read in order; the first faulty row's error fails the whole
/// read.
pub open spec fn spec_parse_rows(header: Seq<Seq<char>>, rows: Seq<Seq<char>>) -> Result<
    Seq<RecordView>,
    ParseError,
>
    decreases rows.len(),
{
    if rows.len() == 0 {
        Ok(Seq::empty())
    } else {
        match spec_parse_rows(header, rows.drop_last()) {
            Err(e) => Err(e),
            Ok(recs) => match spec_parse_row(header, rows.last(), (rows.len() - 1) as usize) {
                Err(e) => Err(e),
                Ok(rec) => Ok(recs.push(rec)),
            },
        }
    }
}

/// An error among the first rows is the error of the whole row sequence.
pub proof fn lemma_parse_rows_err_extends(
    header: Seq<Seq<char>>,
    rows: Seq<Seq<char>>,
    i: int,
    e: ParseError,
)
    requires
        0 <= i <= rows.len(),
        spec_parse_rows(header, rows.subrange(0, i)) == Err::<Seq<RecordView>, ParseError>(e),
    ensures
        spec_parse_rows(header, rows) == Err::<Seq<RecordView>, ParseError>(e),
    decreases rows.len() - i,
{
    if i == rows.len() {
        assert(rows.subrange(0, i) =~= rows);
    } else {
        assert(rows.subrange(0, i + 1).drop_last() =~= rows.subrange(0, i));
        lemma_parse_rows_err_extends(header, rows, i + 1, e);
    }
}

/// The whole read: the content lines of the text, the first of them the
/// header, every further one a data row. No content at all, or a header
/// alone, gives no records; with data rows present the header must name the
/// three required columns.
pub open spec fn spec_parse_document(text: Seq<char>) -> Result<Seq<RecordView>, ParseError> {
    let lines = content_lines(text);
    if lines.len() == 0 {
        Ok(Seq::empty())
    } else {
        let header = split_on(lines[0], ';');
        if find_name(header, "document_name"@) is None || find_name(header, "text_original"@)
            is None || find_name(header, "page_number"@) is None {
            if lines.len() == 1 {
                Ok(Seq::empty())
            } else {
                Err(ParseError::MissingColumn)
            }
        } else {
            spec_parse_rows(header, lines.drop_first())
        }
    }
}

/// Read a whole file's text into records, exactly as `spec_parse_document`
/// says: all records in row order on success, the first fault's error and no
/// partial result otherwise.
pub fn parse_document(text: &str) -> (r: Result<Vec<Record>, ParseError>)
    ensures
        (match r {
            Ok(recs) => spec_parse_document(text@) == Ok::<Seq<RecordView>, ParseError>(
                recs@.map_values(|x: Record| x@),
            ),
            Err(e) => spec_parse_document(text@) == Err::<Seq<RecordView>, ParseError>(e),
        }),
{
    let lines = content_lines_of(text);
    let ghost linesv = lines@.map_values(|l: String| l@);
    if lines.len() == 0 {
        let empty: Vec<Record> = Vec::new();
        proof {
            assert(empty@.map_values(|x: Record| x@) =~= Seq::<RecordView>::empty());
        }
        return Ok(empty);
    }
    let header = split_fields(lines[0].as_str(), ';');
    let ghost headerv = header@.map_values(|f: String| f@);
    let doc_found = find_column(&header, "document_name");
    let src_found = find_column(&header, "text_original");
    let page_found = find_column(&header, "page_number");
    let com_found = find_column(&header, "comment");
    let (doc_col, src_col, page_col) = match (doc_found, src_found, page_found) {
        (Some(d), Some(s), Some(p)) => (d, s, p),
        _ => {
            if lines.len() == 1 {
                let empty: Vec<Record> = Vec::new();
                proof {
                    assert(empty@.map_values(|x: Record| x@) =~= Seq::<RecordView>::empty());
                }
                return Ok(empty);
            }
            return Err(ParseError::MissingColumn);
        },
    };
    let ghost rows = linesv.drop_first();
    let mut out: Vec<Record> = Vec::new();
    let mut i: usize = 1;
    proof {
        assert(rows.subrange(0, 0) =~= Seq::<Seq<char>>::empty());
        assert(out@.map_values(|x: Record| x@) =~= Seq::<RecordView>::empty());
    }
    while i < lines.len()
        invariant
            linesv == lines@.map_values(|l: String| l@),
            linesv == content_lines(text@),
            1 <= i <= linesv.len(),
            headerv == header@.map_values(|f: String| f@),
            headerv == split_on(linesv[0], ';'),
            rows == linesv.drop_first(),
            doc_col < headerv.len(),
            src_col < headerv.len(),
            page_col < headerv.len(),
            find_name(headerv, "document_name"@) == Some(doc_col as int),
            find_name(headerv, "text_original"@) == Some(src_col as int),
            find_name(headerv, "page_number"@) == Some(page_col as int),
            match com_found {
                Some(c) => c < headerv.len() && find_name(headerv, "comment"@) == Some(c as int),
                None => find_name(headerv, "comment"@) is None,
            },
            spec_parse_rows(headerv, rows.subrange(0, i as int - 1)) == Ok::<
                Seq<RecordView>,
                ParseError,
            >(out@.map_values(|x: Record| x@)),
        decreases linesv.len() - i,
    {
        let ghost prefix = rows.subrange(0, i as int - 1);
        let ghost prefix1 = rows.subrange(0, i as int);
        proof {
            assert(rows[i as int - 1] == linesv[i as int]);
            assert(prefix1.drop_last() =~= prefix);
            assert(prefix1.last() == rows[i as int - 1]);
            assert(prefix1.len() == i as int);
        }
        let fields = split_fields(lines[i].as_str(), ';');
        let ghost fieldsv = fields@.map_values(|f: String| f@);
        if fields.len() != header.len() {
            let e = ParseError::WrongFieldCount(i - 1);
            proof {
                assert(spec_parse_row(headerv, rows[i as int - 1], (i - 1) as usize) == Err::<
                    RecordView,
                    ParseError,
                >(e));
                assert(spec_parse_rows(headerv, prefix1) == Err::<Seq<RecordView>, ParseError>(e));
                lemma_parse_rows_err_extends(headerv, rows, i as int, e);
            }
            return Err(e);
        }
        let page = match parse_page_number(fields[page_col].as_str()) {
            Some(p) => p,
            None => {
                let e = ParseError::BadPageNumber(i - 1);
                proof {
                    assert(fieldsv[page_col as int] == fields@[page_col as int]@);
                    assert(spec_parse_row(headerv, rows[i as int - 1], (i - 1) as usize) == Err::<
                        RecordView,
                        ParseError,
                    >(e));
                    assert(spec_parse_rows(headerv, prefix1) == Err::<
                        Seq<RecordView>,
                        ParseError,
                    >(e));
                    lemma_parse_rows_err_extends(headerv, rows, i as int, e);
                }
                return Err(e);
            },
        };
        let comment = match com_found {
            Some(c) => fields[c].clone(),
            None => String::new(),
        };
        let rec = Record {
            document_name: fields[doc_col].clone(),
            source_text: fields[src_col].clone(),
            translated_text: None,
            page_number: page,
            comment,
        };
        let ghost out0 = out@.map_values(|x: Record| x@);
        out.push(rec);
        proof {
            assert(spec_parse_row(headerv, rows[i as int - 1], (i - 1) as usize) == Ok::<
                RecordView,
                ParseError,
            >(rec@));
            assert(spec_parse_rows(headerv, prefix1) == Ok::<Seq<RecordView>, ParseError>(
                out0.push(rec@),
            ));
            assert(out@.map_values(|x: Record| x@) =~= out0.push(rec@));
        }
        i = i + 1;
    }
    proof {
        assert(rows.subrange(0, i as int - 1) =~= rows);
    }
    Ok(out)
}

} // verus!
