//! Population grids in their ASCII form: six header lines, then one line of
//! samples for each row, the northernmost first.
//!
//! The text is taken as bytes. A sample or a real-valued header field is kept
//! as the numeral that was written; nothing here turns it into a machine
//! number.
use vstd::prelude::*;
use vstd::string::*;
use vstd::slice::slice_subrange;
use vstd::slice::slice_to_vec;
use crate::error::GpwError;
use crate::error::HeaderField;
use crate::error::ParseFailure;
use crate::number::count_of;
use crate::number::is_numeral;
use crate::number::numeral_bytes;
use crate::number::parse_count;
use crate::text::after_line;
use crate::text::ascii;
use crate::text::find_line_end;
use crate::text::is_word;
use crate::text::lemma_line_end_bounds;
use crate::text::line_end;
use crate::text::line_next;
use crate::text::next_token;
use crate::text::same_bytes;
use crate::text::tokens;

verus! {

/// The word that opens the line of a header field.
pub open spec fn key_text(f: HeaderField) -> Seq<u8> {
    match f {
        HeaderField::Ncols => ascii("ncols"@),
        HeaderField::Nrows => ascii("nrows"@),
        HeaderField::Xllcorner => ascii("xllcorner"@),
        HeaderField::Yllcorner => ascii("yllcorner"@),
        HeaderField::Cellsize => ascii("cellsize"@),
        HeaderField::NodataValue => ascii("NODATA_value"@),
    }
}

/// The field that a word is the key of, if any.
pub open spec fn field_of_key(tok: Seq<u8>) -> Option<HeaderField> {
    if tok == key_text(HeaderField::Ncols) {
        Some(HeaderField::Ncols)
    } else if tok == key_text(HeaderField::Nrows) {
        Some(HeaderField::Nrows)
    } else if tok == key_text(HeaderField::Xllcorner) {
        Some(HeaderField::Xllcorner)
    } else if tok == key_text(HeaderField::Yllcorner) {
        Some(HeaderField::Yllcorner)
    } else if tok == key_text(HeaderField::Cellsize) {
        Some(HeaderField::Cellsize)
    } else if tok == key_text(HeaderField::NodataValue) {
        Some(HeaderField::NodataValue)
    } else {
        None
    }
}

/// The header fields read so far.
pub struct Draft {
    pub ncols: Option<usize>,
    pub nrows: Option<usize>,
    pub xllcorner: Option<Seq<u8>>,
    pub yllcorner: Option<Seq<u8>>,
    pub cellsize: Option<Seq<u8>>,
    pub nodata_value: Option<Seq<u8>>,
}

/// A header as plain values.
pub struct HeaderView {
    pub ncols: usize,
    pub nrows: usize,
    pub xllcorner: Seq<u8>,
    pub yllcorner: Seq<u8>,
    pub cellsize: Seq<u8>,
    pub nodata_value: Seq<u8>,
}

/// The draft before the first line: no field has a value.
pub open spec fn empty_draft() -> Draft {
    Draft {
        ncols: None,
        nrows: None,
        xllcorner: None,
        yllcorner: None,
        cellsize: None,
        nodata_value: None,
    }
}

/// The failure of a value that is not of the kind of field `f`.
pub open spec fn bad_value(f: HeaderField) -> GpwError {
    GpwError::Parse(ParseFailure::BadValue(f))
}

/// The draft after field `f` was given the value written as `v`; a later
/// value of a field replaces an earlier one.
pub open spec fn set_field(d: Draft, f: HeaderField, v: Seq<u8>) -> Result<Draft, GpwError> {
    match f {
        HeaderField::Ncols => match count_of(v) {
            Some(n) => Ok(Draft { ncols: Some(n), ..d }),
            None => Err(bad_value(f)),
        },
        HeaderField::Nrows => match count_of(v) {
            Some(n) => Ok(Draft { nrows: Some(n), ..d }),
            None => Err(bad_value(f)),
        },
        HeaderField::Xllcorner => if is_numeral(v) {
            Ok(Draft { xllcorner: Some(v), ..d })
        } else {
            Err(bad_value(f))
        },
        HeaderField::Yllcorner => if is_numeral(v) {
            Ok(Draft { yllcorner: Some(v), ..d })
        } else {
            Err(bad_value(f))
        },
        HeaderField::Cellsize => if is_numeral(v) {
            Ok(Draft { cellsize: Some(v), ..d })
        } else {
            Err(bad_value(f))
        },
        HeaderField::NodataValue => Ok(Draft { nodata_value: Some(v), ..d }),
    }
}

/// The draft after one header line with the tokens `toks`. A blank line
/// changes nothing; otherwise the first token must be a key and the second is
/// its value, and what follows on the line is not looked at.
pub open spec fn header_step(d: Draft, toks: Seq<Seq<u8>>, line: nat) -> Result<Draft, GpwError> {
    if toks.len() == 0 {
        Ok(d)
    } else {
        match field_of_key(toks[0]) {
            None => Err(GpwError::Parse(ParseFailure::UnexpectedKey { line: line as usize })),
            Some(f) => if toks.len() < 2 {
                Err(GpwError::Parse(ParseFailure::MissingValue(f)))
            } else {
                set_field(d, f, toks[1])
            },
        }
    }
}

/// The draft after header lines `line..6`, the first of them starting at
/// `from`, together with the place where the line after them starts.
pub open spec fn header_lines(s: Seq<u8>, from: int, line: nat, d: Draft) -> Result<
    (Draft, int),
    GpwError,
>
    decreases 6 - line,
{
    if line >= 6 {
        Ok((d, from))
    } else {
        match header_step(d, tokens(s, from, line_end(s, from)), line) {
            Err(e) => Err(e),
            Ok(next) => header_lines(s, line_next(s, from), line + 1, next),
        }
    }
}

/// The header that a draft amounts to once all six fields have a value.
pub open spec fn complete(d: Draft) -> Option<HeaderView> {
    if d.ncols is Some && d.nrows is Some && d.xllcorner is Some && d.yllcorner is Some
        && d.cellsize is Some && d.nodata_value is Some {
        Some(
            HeaderView {
                ncols: d.ncols->Some_0,
                nrows: d.nrows->Some_0,
                xllcorner: d.xllcorner->Some_0,
                yllcorner: d.yllcorner->Some_0,
                cellsize: d.cellsize->Some_0,
                nodata_value: d.nodata_value->Some_0,
            },
        )
    } else {
        None
    }
}

/// The header that the first six lines of `s` spell, with the place where
/// the seventh line starts.
pub open spec fn header_of(s: Seq<u8>) -> Result<(HeaderView, int), GpwError> {
    match header_lines(s, 0, 0, empty_draft()) {
        Err(e) => Err(e),
        Ok((d, rest)) => match complete(d) {
            Some(h) => Ok((h, rest)),
            None => Err(GpwError::IncompleteHeader),
        },
    }
}

/// A numeral, kept as it was written.
#[derive(Clone, Debug, PartialEq, Eq)]
pub struct Numeral {
    pub text: Vec<u8>,
}

impl Numeral {
    /// The text is a numeral.
    pub open spec fn wf(&self) -> bool {
        is_numeral(self.text@)
    }
}

/// The header of a grid, for instance
///
/// ```text
/// ncols         10800
/// nrows         10800
/// xllcorner     -180
/// yllcorner     -4.2632564145606e-14
/// cellsize      0.0083333333333333
/// NODATA_value  -9999
/// ```
#[derive(Clone, Debug, PartialEq, Eq)]
pub struct GpwAsciiHeader {
    pub ncols: usize,
    pub nrows: usize,
    pub xllcorner: Numeral,
    pub yllcorner: Numeral,
    pub cellsize: Numeral,
    pub nodata_value: Vec<u8>,
}

impl View for GpwAsciiHeader {
    type V = HeaderView;

    open spec fn view(&self) -> HeaderView {
        HeaderView {
            ncols: self.ncols,
            nrows: self.nrows,
            xllcorner: self.xllcorner.text@,
            yllcorner: self.yllcorner.text@,
            cellsize: self.cellsize.text@,
            nodata_value: self.nodata_value@,
        }
    }
}

/// Both counts are positive and the three real-valued fields are numerals.
pub open spec fn header_wf(h: HeaderView) -> bool {
    &&& h.ncols > 0
    &&& h.nrows > 0
    &&& is_numeral(h.xllcorner)
    &&& is_numeral(h.yllcorner)
    &&& is_numeral(h.cellsize)
}

/// A header that the six lines spell is well formed.
pub proof fn lemma_header_lines_wf(s: Seq<u8>, from: int, line: nat, d: Draft)
    requires
        draft_wf(d),
    ensures
        header_lines(s, from, line, d) is Ok ==> draft_wf(header_lines(s, from, line, d)->Ok_0.0),
    decreases 6 - line,
{
    if line < 6 {
        let step = header_step(d, tokens(s, from, line_end(s, from)), line);
        if step is Ok {
            lemma_header_lines_wf(s, line_next(s, from), line + 1, step->Ok_0);
        }
    }
}

/// Whatever a draft holds is of its field's kind.
pub open spec fn draft_wf(d: Draft) -> bool {
    &&& d.ncols is Some ==> d.ncols->Some_0 > 0
    &&& d.nrows is Some ==> d.nrows->Some_0 > 0
    &&& d.xllcorner is Some ==> is_numeral(d.xllcorner->Some_0)
    &&& d.yllcorner is Some ==> is_numeral(d.yllcorner->Some_0)
    &&& d.cellsize is Some ==> is_numeral(d.cellsize->Some_0)
}

/// Finds the field that `tok` is the key of.
pub fn key_field(tok: &[u8]) -> (r: Option<HeaderField>)
    ensures
        r == field_of_key(tok@),
{
    proof {
        reveal_strlit("ncols");
        reveal_strlit("nrows");
        reveal_strlit("xllcorner");
        reveal_strlit("yllcorner");
        reveal_strlit("cellsize");
        reveal_strlit("NODATA_value");
    }
    if is_word(tok, "ncols") {
        Some(HeaderField::Ncols)
    } else if is_word(tok, "nrows") {
        Some(HeaderField::Nrows)
    } else if is_word(tok, "xllcorner") {
        Some(HeaderField::Xllcorner)
    } else if is_word(tok, "yllcorner") {
        Some(HeaderField::Yllcorner)
    } else if is_word(tok, "cellsize") {
        Some(HeaderField::Cellsize)
    } else if is_word(tok, "NODATA_value") {
        Some(HeaderField::NodataValue)
    } else {
        None
    }
}

/// Reads a numeral, or says which field it was meant for.
fn numeral_for(f: HeaderField, tok: &[u8]) -> (r: Result<Numeral, GpwError>)
    ensures
        match r {
            Ok(n) => is_numeral(tok@) && n.text@ == tok@,
            Err(e) => !is_numeral(tok@) && e == bad_value(f),
        },
{
    if numeral_bytes(tok) {
        Ok(Numeral { text: slice_to_vec(tok) })
    } else {
        Err(GpwError::Parse(ParseFailure::BadValue(f)))
    }
}

/// Reads a count, or says which field it was meant for.
fn count_for(f: HeaderField, tok: &[u8]) -> (r: Result<usize, GpwError>)
    ensures
        match r {
            Ok(n) => count_of(tok@) == Some(n),
            Err(e) => count_of(tok@) is None && e == bad_value(f),
        },
{
    match parse_count(tok) {
        Some(n) => Ok(n),
        None => Err(GpwError::Parse(ParseFailure::BadValue(f))),
    }
}

/// The text of a numeral, if there is one.
pub open spec fn numeral_text(n: Option<Numeral>) -> Option<Seq<u8>> {
    match n {
        Some(n) => Some(n.text@),
        None => None,
    }
}

/// The bytes of a token, if there is one.
pub open spec fn bytes_text(n: Option<Vec<u8>>) -> Option<Seq<u8>> {
    match n {
        Some(n) => Some(n@),
        None => None,
    }
}

/// What `GpwAsciiHeader::parse` returned, as plain values.
pub open spec fn header_outcome(r: Result<(GpwAsciiHeader, usize), GpwError>) -> Result<
    (HeaderView, int),
    GpwError,
> {
    match r {
        Ok((h, rest)) => Ok((h@, rest as int)),
        Err(e) => Err(e),
    }
}

/// How many cell sizes the southern edge of row `row` lies north of
/// `yllcorner`: `nrows - row + 1`, rows being counted from the north and from
/// zero. The western edge of column `col` lies `col` cell sizes east of
/// `xllcorner`.
pub open spec fn south_steps_of(nrows: usize, row: usize) -> int {
    nrows - row + 1
}

impl GpwAsciiHeader {
    /// Both counts are positive and the three real-valued fields are numerals.
    pub open spec fn wf(&self) -> bool {
        header_wf(self@)
    }

    /// The steps from `yllcorner` to the southern edge of row `row`, or
    /// `None` where `row` is beyond `nrows` or the number of steps does not
    /// fit.
    pub fn south_steps(&self, row: usize) -> (r: Option<usize>)
        ensures
            r == (if row <= self.nrows && south_steps_of(self.nrows, row) <= usize::MAX {
                Some(south_steps_of(self.nrows, row) as usize)
            } else {
                None
            }),
    {
        if row > self.nrows {
            None
        } else {
            (self.nrows - row).checked_add(1)
        }
    }

    /// Reads the header from the first six lines of `s`. Gives the header
    /// and the place in `s` where the seventh line starts.
    pub fn parse(s: &[u8]) -> (r: Result<(Self, usize), GpwError>)
        ensures
            header_outcome(r) == header_of(s@),
            r matches Ok((h, rest)) ==> h.wf() && rest <= s@.len(),
    {
        let mut ncols: Option<usize> = None;
        let mut nrows: Option<usize> = None;
        let mut xllcorner: Option<Numeral> = None;
        let mut yllcorner: Option<Numeral> = None;
        let mut cellsize: Option<Numeral> = None;
        let mut nodata_value: Option<Vec<u8>> = None;
        let mut pos: usize = 0;
        let mut line: usize = 0;
        while line < 6
            invariant
                0 <= line <= 6,
                pos <= s@.len(),
                header_lines(s@, 0, 0, empty_draft()) == header_lines(
                    s@,
                    pos as int,
                    line as nat,
                    Draft {
                        ncols,
                        nrows,
                        xllcorner: numeral_text(xllcorner),
                        yllcorner: numeral_text(yllcorner),
                        cellsize: numeral_text(cellsize),
                        nodata_value: bytes_text(nodata_value),
                    },
                ),
                draft_wf(
                    Draft {
                        ncols,
                        nrows,
                        xllcorner: numeral_text(xllcorner),
                        yllcorner: numeral_text(yllcorner),
                        cellsize: numeral_text(cellsize),
                        nodata_value: bytes_text(nodata_value),
                    },
                ),
            decreases 6 - line,
        {
            let end = find_line_end(s, pos);
            let ghost toks = tokens(s@, pos as int, end as int);
            match next_token(s, pos, end) {
                None => {},
                Some((a, b)) => {
                    let key = slice_subrange(s, a, b);
                    assert(toks[0] == key@);
                    match key_field(key) {
                        None => {
                            return Err(GpwError::Parse(ParseFailure::UnexpectedKey { line }));
                        },
                        Some(f) => {
                            match next_token(s, b, end) {
                                None => {
                                    assert(toks.len() == 1);
                                    return Err(GpwError::Parse(ParseFailure::MissingValue(f)));
                                },
                                Some((c, d)) => {
                                    let value = slice_subrange(s, c, d);
                                    assert(toks[1] == value@);
                                    match f {
                                        HeaderField::Ncols => {
                                            match count_for(f, value) {
                                                Ok(n) => {
                                                    ncols = Some(n);
                                                },
                                                Err(e) => {
                                                    return Err(e);
                                                },
                                            }
                                        },
                                        HeaderField::Nrows => {
                                            match count_for(f, value) {
                                                Ok(n) => {
                                                    nrows = Some(n);
                                                },
                                                Err(e) => {
                                                    return Err(e);
                                                },
                                            }
                                        },
                                        HeaderField::Xllcorner => {
                                            match numeral_for(f, value) {
                                                Ok(n) => {
                                                    xllcorner = Some(n);
                                                },
                                                Err(e) => {
                                                    return Err(e);
                                                },
                                            }
                                        },
                                        HeaderField::Yllcorner => {
                                            match numeral_for(f, value) {
                                                Ok(n) => {
                                                    yllcorner = Some(n);
                                                },
                                                Err(e) => {
                                                    return Err(e);
                                                },
                                            }
                                        },
                                        HeaderField::Cellsize => {
                                            match numeral_for(f, value) {
                                                Ok(n) => {
                                                    cellsize = Some(n);
                                                },
                                                Err(e) => {
                                                    return Err(e);
                                                },
                                            }
                                        },
                                        HeaderField::NodataValue => {
                                            nodata_value = Some(slice_to_vec(value));
                                        },
                                    }
                                },
                            }
                        },
                    }
                },
            }
            pos = after_line(s, end);
            line += 1;
        }
        match (ncols, nrows, xllcorner, yllcorner, cellsize, nodata_value) {
            (
                Some(ncols),
                Some(nrows),
                Some(xllcorner),
                Some(yllcorner),
                Some(cellsize),
                Some(nodata_value),
            ) => Ok(
                (GpwAsciiHeader { ncols, nrows, xllcorner, yllcorner, cellsize, nodata_value }, pos),
            ),
            _ => Err(GpwError::IncompleteHeader),
        }
    }
}

/// What a token of a row stands for: nothing where it is the no-data token,
/// itself where it is a numeral. `None` where it is neither.
pub open spec fn sample_of(tok: Seq<u8>, nodata: Seq<u8>) -> Option<Option<Seq<u8>>> {
    if tok == nodata {
        Some(None)
    } else if is_numeral(tok) {
        Some(Some(tok))
    } else {
        None
    }
}

/// The samples that the tokens of row `row` stand for, or the failure at the
/// first token that stands for none.
pub open spec fn row_of(toks: Seq<Seq<u8>>, nodata: Seq<u8>, row: nat) -> Result<
    Seq<Option<Seq<u8>>>,
    GpwError,
>
    decreases toks.len(),
{
    if toks.len() == 0 {
        Ok(seq![])
    } else {
        match row_of(toks.drop_last(), nodata, row) {
            Err(e) => Err(e),
            Ok(r) => match sample_of(toks.last(), nodata) {
                Some(c) => Ok(r.push(c)),
                None => Err(
                    GpwError::Parse(
                        ParseFailure::BadSample {
                            row: row as usize,
                            col: (toks.len() - 1) as usize,
                        },
                    ),
                ),
            },
        }
    }
}

/// `acc` followed by the rows of `r`, or the failure of `r`.
pub open spec fn after_rows(
    acc: Seq<Seq<Option<Seq<u8>>>>,
    r: Result<Seq<Seq<Option<Seq<u8>>>>, GpwError>,
) -> Result<Seq<Seq<Option<Seq<u8>>>>, GpwError> {
    match r {
        Ok(rest) => Ok(acc + rest),
        Err(e) => Err(e),
    }
}

/// The rows that the lines from `from` to the end of `s` spell, the first of
/// them being row `row`. Every line is a row, a blank one too, and each row
/// must hold `ncols` samples.
pub open spec fn rows_of(s: Seq<u8>, from: int, h: HeaderView, row: nat) -> Result<
    Seq<Seq<Option<Seq<u8>>>>,
    GpwError,
>
    decreases s.len() - from,
{
    if 0 <= from < s.len() {
        proof {
            lemma_line_end_bounds(s, from);
        }
        match row_of(tokens(s, from, line_end(s, from)), h.nodata_value, row) {
            Err(e) => Err(e),
            Ok(r) => if r.len() != h.ncols {
                Err(GpwError::Parse(ParseFailure::RowWidth { row: row as usize }))
            } else {
                after_rows(seq![r], rows_of(s, line_next(s, from), h, row + 1))
            },
        }
    } else {
        Ok(seq![])
    }
}

/// A grid as plain values: its header, and its rows from north to south.
pub struct GridView {
    pub header: HeaderView,
    pub data: Seq<Seq<Option<Seq<u8>>>>,
}

/// The grid that `s` spells: six header lines, then `nrows` lines of `ncols`
/// samples each.
pub open spec fn grid_of(s: Seq<u8>) -> Result<GridView, GpwError> {
    match header_of(s) {
        Err(e) => Err(e),
        Ok((h, rest)) => match rows_of(s, rest, h, 0) {
            Err(e) => Err(e),
            Ok(data) => if data.len() != h.nrows {
                Err(GpwError::Parse(ParseFailure::RowCount))
            } else {
                Ok(GridView { header: h, data })
            },
        },
    }
}

/// The grid has the shape that its header gives, and every sample is a
/// numeral other than the no-data token.
pub open spec fn grid_wf(g: GridView) -> bool {
    &&& header_wf(g.header)
    &&& g.data.len() == g.header.nrows
    &&& forall|i: int|
        0 <= i < g.data.len() ==> (#[trigger] g.data[i]).len() == g.header.ncols
    &&& forall|i: int, j: int|
        0 <= i < g.data.len() && 0 <= j < g.data[i].len() ==> sample_wf(
            #[trigger] g.data[i][j],
            g.header.nodata_value,
        )
}

/// A sample is a numeral other than the no-data token.
pub open spec fn sample_wf(c: Option<Seq<u8>>, nodata: Seq<u8>) -> bool {
    c matches Some(t) ==> is_numeral(t) && t != nodata
}

/// A row that was read holds, place by place, what its tokens stand for.
pub proof fn lemma_row_of_wf(toks: Seq<Seq<u8>>, nodata: Seq<u8>, row: nat)
    ensures
        row_of(toks, nodata, row) matches Ok(r) ==> r.len() == toks.len() && forall|j: int|
            0 <= j < r.len() ==> Some(#[trigger] r[j]) == sample_of(toks[j], nodata),
    decreases toks.len(),
{
    if toks.len() > 0 {
        lemma_row_of_wf(toks.drop_last(), nodata, row);
    }
}

/// Rows that were read are `ncols` wide and hold nothing but samples.
pub proof fn lemma_rows_of_wf(s: Seq<u8>, from: int, h: HeaderView, row: nat)
    ensures
        rows_of(s, from, h, row) matches Ok(data) ==> forall|i: int|
            0 <= i < data.len() ==> (#[trigger] data[i]).len() == h.ncols && forall|j: int|
                0 <= j < data[i].len() ==> sample_wf(#[trigger] data[i][j], h.nodata_value),
    decreases s.len() - from,
{
    if 0 <= from < s.len() {
        lemma_line_end_bounds(s, from);
        let toks = tokens(s, from, line_end(s, from));
        lemma_row_of_wf(toks, h.nodata_value, row);
        lemma_rows_of_wf(s, line_next(s, from), h, row + 1);
        if rows_of(s, from, h, row) is Ok {
            let r = row_of(toks, h.nodata_value, row)->Ok_0;
            let rest = rows_of(s, line_next(s, from), h, row + 1)->Ok_0;
            let data = rows_of(s, from, h, row)->Ok_0;
            assert(data == seq![r] + rest);
            assert forall|i: int| 0 <= i < data.len() implies (#[trigger] data[i]).len()
                == h.ncols && forall|j: int|
                0 <= j < data[i].len() ==> sample_wf(#[trigger] data[i][j], h.nodata_value) by {
                if i == 0 {
                    assert(data[0] == r);
                    assert forall|j: int| 0 <= j < r.len() implies sample_wf(
                        #[trigger] r[j],
                        h.nodata_value,
                    ) by {
                        assert(Some(r[j]) == sample_of(toks[j], h.nodata_value));
                    }
                } else {
                    assert(data[i] == rest[i - 1]);
                }
            }
        }
    }
}

/// A grid that the text spells is well formed.
pub proof fn lemma_grid_of_wf(s: Seq<u8>)
    ensures
        grid_of(s) matches Ok(g) ==> grid_wf(g),
{
    if grid_of(s) is Ok {
        let (h, rest) = header_of(s)->Ok_0;
        lemma_header_lines_wf(s, 0, 0, empty_draft());
        lemma_rows_of_wf(s, rest, h, 0);
    }
}

/// A row as plain values.
pub open spec fn row_view(r: Seq<Option<Numeral>>) -> Seq<Option<Seq<u8>>> {
    Seq::new(r.len(), |j: int| numeral_text(r[j]))
}

/// The rows of a grid as plain values.
pub open spec fn data_view(d: Seq<Vec<Option<Numeral>>>) -> Seq<Seq<Option<Seq<u8>>>> {
    Seq::new(d.len(), |i: int| row_view(d[i]@))
}

/// What reading a row returned, as plain values.
pub open spec fn row_outcome(r: Result<Vec<Option<Numeral>>, GpwError>) -> Result<
    Seq<Option<Seq<u8>>>,
    GpwError,
> {
    match r {
        Ok(v) => Ok(row_view(v@)),
        Err(e) => Err(e),
    }
}

/// Reads the samples of row `row` from the line `s[from..to)`.
pub fn parse_row(s: &[u8], from: usize, to: usize, nodata: &[u8], row: usize) -> (r: Result<
    Vec<Option<Numeral>>,
    GpwError,
>)
    requires
        from <= to <= s@.len(),
    ensures
        row_outcome(r) == row_of(tokens(s@, from as int, to as int), nodata@, row as nat),
{
    let mut out: Vec<Option<Numeral>> = Vec::new();
    let mut pos: usize = from;
    let ghost all = tokens(s@, from as int, to as int);
    let ghost mut done: Seq<Seq<u8>> = Seq::empty();
    assert(all =~= done + tokens(s@, pos as int, to as int));
    assert(row_view(out@) =~= Seq::empty());
    loop
        invariant
            from <= pos <= to <= s@.len(),
            all == tokens(s@, from as int, to as int),
            all == done + tokens(s@, pos as int, to as int),
            row_of(done, nodata@, row as nat) == Ok::<Seq<Option<Seq<u8>>>, GpwError>(
                row_view(out@),
            ),
            done.len() == out@.len(),
        decreases to - pos,
    {
        match next_token(s, pos, to) {
            None => {
                proof {
                    assert(all =~= done);
                }
                return Ok(out);
            },
            Some((a, b)) => {
                let tok = slice_subrange(s, a, b);
                let ghost next = done.push(tok@);
                proof {
                    assert(next.drop_last() =~= done);
                    assert(next.last() == tok@);
                    assert(all =~= next + tokens(s@, b as int, to as int));
                }
                let sample: Option<Numeral> = if same_bytes(tok, nodata) {
                    None
                } else if numeral_bytes(tok) {
                    Some(Numeral { text: slice_to_vec(tok) })
                } else {
                    proof {
                        lemma_row_prefix_fails(all, next.len() as int, nodata@, row as nat);
                        assert(all.subrange(0, next.len() as int) =~= next);
                    }
                    return Err(
                        GpwError::Parse(ParseFailure::BadSample { row, col: out.len() }),
                    );
                };
                let ghost before = out@;
                out.push(sample);
                proof {
                    assert(row_view(out@) =~= row_view(before).push(numeral_text(sample)));
                    done = next;
                }
                pos = b;
            },
        }
    }
}

/// A failure among the first `k` tokens of a row is the failure of the row.
pub proof fn lemma_row_prefix_fails(toks: Seq<Seq<u8>>, k: int, nodata: Seq<u8>, row: nat)
    requires
        0 <= k <= toks.len(),
        row_of(toks.subrange(0, k), nodata, row) is Err,
    ensures
        row_of(toks, nodata, row) == row_of(toks.subrange(0, k), nodata, row),
    decreases toks.len() - k,
{
    if k < toks.len() {
        let longer = toks.subrange(0, k + 1);
        assert(longer.drop_last() =~= toks.subrange(0, k));
        lemma_row_prefix_fails(toks, k + 1, nodata, row);
    } else {
        assert(toks.subrange(0, k) =~= toks);
    }
}

/// A grid: its header and its samples, row by row from north to south. A
/// cell without data holds `None`.
#[derive(Clone, Debug, PartialEq, Eq)]
pub struct GpwAscii {
    pub header: GpwAsciiHeader,
    pub data: Vec<Vec<Option<Numeral>>>,
    pub filename: Option<String>,
}

impl View for GpwAscii {
    type V = GridView;

    open spec fn view(&self) -> GridView {
        GridView { header: self.header@, data: data_view(self.data@) }
    }
}

/// What `GpwAscii::parse` returned, as plain values.
pub open spec fn grid_outcome(r: Result<GpwAscii, GpwError>) -> Result<GridView, GpwError> {
    match r {
        Ok(g) => Ok(g@),
        Err(e) => Err(e),
    }
}

impl GpwAscii {
    /// The grid has the shape that its header gives, and every sample is a
    /// numeral other than the no-data token.
    pub open spec fn wf(&self) -> bool {
        grid_wf(self@)
    }

    /// Reads a grid from its text.
    pub fn parse(s: &[u8]) -> (r: Result<Self, GpwError>)
        ensures
            grid_outcome(r) == grid_of(s@),
            r matches Ok(g) ==> g.wf() && g.filename is None,
    {
        let (header, rest) = match GpwAsciiHeader::parse(s) {
            Ok(found) => found,
            Err(e) => {
                return Err(e);
            },
        };
        let mut data: Vec<Vec<Option<Numeral>>> = Vec::new();
        let mut pos: usize = rest;
        assert(data_view(data@) =~= Seq::empty());
        while pos < s.len()
            invariant
                rest <= pos <= s@.len(),
                data@.len() <= pos,
                header_of(s@) matches Ok(found) && found == (header@, rest as int),
                rows_of(s@, rest as int, header@, 0) == after_rows(
                    data_view(data@),
                    rows_of(s@, pos as int, header@, data@.len() as nat),
                ),
            decreases s@.len() - pos,
        {
            let end = find_line_end(s, pos);
            let row = match parse_row(s, pos, end, header.nodata_value.as_slice(), data.len()) {
                Ok(row) => row,
                Err(e) => {
                    return Err(e);
                },
            };
            if row.len() != header.ncols {
                return Err(GpwError::Parse(ParseFailure::RowWidth { row: data.len() }));
            }
            let ghost before = data@;
            let ghost tail = rows_of(s@, line_next(s@, pos as int), header@, before.len() + 1);
            data.push(row);
            proof {
                assert(data_view(data@) =~= data_view(before) + seq![row_view(row@)]);
                if tail is Ok {
                    assert(data_view(before) + (seq![row_view(row@)] + tail->Ok_0) =~= data_view(
                        data@,
                    ) + tail->Ok_0);
                }
            }
            pos = after_line(s, end);
        }
        proof {
            assert(data_view(data@) + Seq::empty() =~= data_view(data@));
            lemma_grid_of_wf(s@);
        }
        if data.len() != header.nrows {
            return Err(GpwError::Parse(ParseFailure::RowCount));
        }
        Ok(GpwAscii { header, data, filename: None })
    }
}

} // verus!
