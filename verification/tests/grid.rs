use gpwgen::error::{GpwError, HeaderField, ParseFailure};
use gpwgen::gpwascii::{GpwAscii, GpwAsciiHeader, Numeral};

const HEADER: &str = "ncols         10800
nrows         10800
xllcorner     -180
yllcorner     -4.2632564145606e-14
cellsize      0.0083333333333333
NODATA_value  -9999
";

const GRID: &str = "ncols         4
nrows         4
xllcorner     -180
yllcorner     -4.2632564145606e-14
cellsize      0.0083333333333333
NODATA_value  -9999
-9999 -9999 -9999 -9999
-9999 -9999 -9999 -9999
-9999 -9999 -9999 -9999
-9999 -9999 0.123 -9999
";

fn numeral(text: &str) -> Numeral {
    Numeral { text: text.as_bytes().to_vec() }
}

fn small(body: &str) -> String {
    format!("ncols 2\nnrows 2\nxllcorner 0\nyllcorner 0\ncellsize 1\nNODATA_value NA\n{}", body)
}

#[test]
fn generate_test_parse_header() {
    GpwAsciiHeader::parse(HEADER.as_bytes()).unwrap();
}

#[test]
fn lib_test_parse_header() {
    let (header, rest) = GpwAsciiHeader::parse(HEADER.as_bytes()).unwrap();
    assert_eq!(header.ncols, 10800);
    assert_eq!(header.nrows, 10800);
    assert_eq!(header.xllcorner, numeral("-180"));
    assert_eq!(header.yllcorner, numeral("-4.2632564145606e-14"));
    assert_eq!(header.cellsize, numeral("0.0083333333333333"));
    assert_eq!(header.nodata_value, b"-9999".to_vec());
    assert_eq!(rest, HEADER.len());
}

#[test]
fn generate_test_parse() {
    GpwAscii::parse(GRID.as_bytes()).unwrap();
}

#[test]
fn lib_test_parse() {
    let grid = GpwAscii::parse(GRID.as_bytes()).unwrap();
    assert_eq!(grid.header.ncols, 4);
    assert_eq!(grid.header.nrows, 4);
    assert_eq!(grid.filename, None);
    assert_eq!(grid.data.len(), 4);
    for (r, row) in grid.data.iter().enumerate() {
        assert_eq!(row.len(), 4);
        for (c, sample) in row.iter().enumerate() {
            if r == 3 && c == 2 {
                assert_eq!(*sample, Some(numeral("0.123")));
            } else {
                assert_eq!(*sample, None);
            }
        }
    }
}

#[test]
fn header_keys_come_in_any_order() {
    let text = "NODATA_value x\ncellsize 2\nyllcorner 1\nxllcorner 0\nnrows 3\nncols 5\n";
    let (header, rest) = GpwAsciiHeader::parse(text.as_bytes()).unwrap();
    assert_eq!(header.ncols, 5);
    assert_eq!(header.nrows, 3);
    assert_eq!(header.xllcorner, numeral("0"));
    assert_eq!(header.yllcorner, numeral("1"));
    assert_eq!(header.cellsize, numeral("2"));
    assert_eq!(header.nodata_value, b"x".to_vec());
    assert_eq!(rest, text.len());
}

#[test]
fn header_ignores_what_follows_the_value() {
    let text = "ncols 5 columns\nnrows 3\nxllcorner 0\nyllcorner 1\ncellsize 2\nNODATA_value x y z\n";
    let (header, _) = GpwAsciiHeader::parse(text.as_bytes()).unwrap();
    assert_eq!(header.ncols, 5);
    assert_eq!(header.nodata_value, b"x".to_vec());
}

#[test]
fn header_takes_carriage_returns_and_tabs() {
    let text = "ncols\t5\r\nnrows 3\r\nxllcorner 0\r\nyllcorner 1\r\ncellsize 2\r\nNODATA_value x\r\n";
    let (header, rest) = GpwAsciiHeader::parse(text.as_bytes()).unwrap();
    assert_eq!(header.ncols, 5);
    assert_eq!(header.nodata_value, b"x".to_vec());
    assert_eq!(rest, text.len());
}

#[test]
fn header_without_final_newline() {
    let text = "ncols 5\nnrows 3\nxllcorner 0\nyllcorner 1\ncellsize 2\nNODATA_value x";
    let (header, rest) = GpwAsciiHeader::parse(text.as_bytes()).unwrap();
    assert_eq!(header.nrows, 3);
    assert_eq!(rest, text.len());
}

#[test]
fn header_unexpected_key() {
    let text = "ncols 5\nrows 3\nxllcorner 0\nyllcorner 1\ncellsize 2\nNODATA_value x\n";
    assert_eq!(
        GpwAsciiHeader::parse(text.as_bytes()),
        Err(GpwError::Parse(ParseFailure::UnexpectedKey { line: 1 }))
    );
}

#[test]
fn header_key_is_case_sensitive() {
    let text = "NCOLS 5\nnrows 3\nxllcorner 0\nyllcorner 1\ncellsize 2\nNODATA_value x\n";
    assert_eq!(
        GpwAsciiHeader::parse(text.as_bytes()),
        Err(GpwError::Parse(ParseFailure::UnexpectedKey { line: 0 }))
    );
}

#[test]
fn header_missing_value() {
    let fields = [
        ("ncols", HeaderField::Ncols),
        ("nrows", HeaderField::Nrows),
        ("xllcorner", HeaderField::Xllcorner),
        ("yllcorner", HeaderField::Yllcorner),
        ("cellsize", HeaderField::Cellsize),
        ("NODATA_value", HeaderField::NodataValue),
    ];
    for (key, field) in fields {
        let text = format!("{}   \nnrows 3\n", key);
        assert_eq!(
            GpwAsciiHeader::parse(text.as_bytes()),
            Err(GpwError::Parse(ParseFailure::MissingValue(field)))
        );
    }
}

#[test]
fn header_bad_value_names_the_field() {
    let cases = [
        ("ncols abc", HeaderField::Ncols),
        ("ncols 1.5", HeaderField::Ncols),
        ("ncols -3", HeaderField::Ncols),
        ("ncols 0", HeaderField::Ncols),
        ("nrows abc", HeaderField::Nrows),
        ("nrows 99999999999999999999999999", HeaderField::Nrows),
        ("xllcorner west", HeaderField::Xllcorner),
        ("yllcorner 1,5", HeaderField::Yllcorner),
        ("cellsize 1e", HeaderField::Cellsize),
    ];
    for (line, field) in cases {
        let text = format!("{}\n", line);
        assert_eq!(
            GpwAsciiHeader::parse(text.as_bytes()),
            Err(GpwError::Parse(ParseFailure::BadValue(field))),
            "{}",
            line
        );
    }
}

#[test]
fn header_incomplete() {
    assert_eq!(GpwAsciiHeader::parse(b""), Err(GpwError::IncompleteHeader));
    let five = "ncols 5\nnrows 3\nxllcorner 0\nyllcorner 1\ncellsize 2\n";
    assert_eq!(GpwAsciiHeader::parse(five.as_bytes()), Err(GpwError::IncompleteHeader));
    let blank = "ncols 5\nnrows 3\n\nxllcorner 0\nyllcorner 1\ncellsize 2\nNODATA_value x\n";
    assert_eq!(GpwAsciiHeader::parse(blank.as_bytes()), Err(GpwError::IncompleteHeader));
    let twice = "ncols 5\nncols 6\nnrows 3\nxllcorner 0\nyllcorner 1\ncellsize 2\nNODATA_value x\n";
    assert_eq!(GpwAsciiHeader::parse(twice.as_bytes()), Err(GpwError::IncompleteHeader));
}

#[test]
fn header_later_value_replaces_earlier() {
    let text = "ncols 5\nncols 6\nnrows 3\nxllcorner 0\nyllcorner 1\ncellsize 2\n";
    assert_eq!(GpwAsciiHeader::parse(text.as_bytes()), Err(GpwError::IncompleteHeader));
    let text = "nrows 3\nxllcorner 0\nyllcorner 1\ncellsize 2\nNODATA_value x\nNODATA_value y\n";
    assert_eq!(GpwAsciiHeader::parse(text.as_bytes()), Err(GpwError::IncompleteHeader));
}

#[test]
fn header_error_on_an_earlier_line_wins() {
    let text = "ncols x\nbogus 3\n";
    assert_eq!(
        GpwAsciiHeader::parse(text.as_bytes()),
        Err(GpwError::Parse(ParseFailure::BadValue(HeaderField::Ncols)))
    );
    let text = "bogus 3\nncols x\n";
    assert_eq!(
        GpwAsciiHeader::parse(text.as_bytes()),
        Err(GpwError::Parse(ParseFailure::UnexpectedKey { line: 0 }))
    );
}

#[test]
fn south_steps_follow_the_formula() {
    let (header, _) = GpwAsciiHeader::parse(HEADER.as_bytes()).unwrap();
    assert_eq!(header.south_steps(0), Some(10801));
    assert_eq!(header.south_steps(3), Some(10798));
    assert_eq!(header.south_steps(10799), Some(2));
    assert_eq!(header.south_steps(10800), Some(1));
    assert_eq!(header.south_steps(10801), None);
}

#[test]
fn grid_of_two_by_two() {
    let grid = GpwAscii::parse(small("1 NA\n-2.5e3 inf\n").as_bytes()).unwrap();
    assert_eq!(
        grid.data,
        vec![
            vec![Some(numeral("1")), None],
            vec![Some(numeral("-2.5e3")), Some(numeral("inf"))],
        ]
    );
}

#[test]
fn grid_last_row_without_newline() {
    let grid = GpwAscii::parse(small("1 2\n3 4").as_bytes()).unwrap();
    assert_eq!(grid.data.len(), 2);
    assert_eq!(grid.data[1], vec![Some(numeral("3")), Some(numeral("4"))]);
}

#[test]
fn grid_nodata_is_matched_as_text() {
    let text = "ncols 2\nnrows 1\nxllcorner 0\nyllcorner 0\ncellsize 1\nNODATA_value -9999\n-9999 -9999.0\n";
    let grid = GpwAscii::parse(text.as_bytes()).unwrap();
    assert_eq!(grid.data, vec![vec![None, Some(numeral("-9999.0"))]]);
}

#[test]
fn grid_nodata_need_not_be_a_number() {
    let grid = GpwAscii::parse(small("NA NA\nNA 7\n").as_bytes()).unwrap();
    assert_eq!(grid.data, vec![vec![None, None], vec![None, Some(numeral("7"))]]);
}

#[test]
fn grid_bad_sample_names_row_and_column() {
    assert_eq!(
        GpwAscii::parse(small("1 2\n3 four\n").as_bytes()),
        Err(GpwError::Parse(ParseFailure::BadSample { row: 1, col: 1 }))
    );
    assert_eq!(
        GpwAscii::parse(small("x y\n3 four\n").as_bytes()),
        Err(GpwError::Parse(ParseFailure::BadSample { row: 0, col: 0 }))
    );
}

#[test]
fn grid_row_of_wrong_width() {
    assert_eq!(
        GpwAscii::parse(small("1 2\n3\n").as_bytes()),
        Err(GpwError::Parse(ParseFailure::RowWidth { row: 1 }))
    );
    assert_eq!(
        GpwAscii::parse(small("1 2 3\n4 5\n").as_bytes()),
        Err(GpwError::Parse(ParseFailure::RowWidth { row: 0 }))
    );
    assert_eq!(
        GpwAscii::parse(small("1 2\n\n3 4\n").as_bytes()),
        Err(GpwError::Parse(ParseFailure::RowWidth { row: 1 }))
    );
}

#[test]
fn grid_bad_sample_comes_before_width() {
    assert_eq!(
        GpwAscii::parse(small("1 2 x\n").as_bytes()),
        Err(GpwError::Parse(ParseFailure::BadSample { row: 0, col: 2 }))
    );
}

#[test]
fn grid_wrong_number_of_rows() {
    assert_eq!(
        GpwAscii::parse(small("1 2\n").as_bytes()),
        Err(GpwError::Parse(ParseFailure::RowCount))
    );
    assert_eq!(
        GpwAscii::parse(small("1 2\n3 4\n5 6\n").as_bytes()),
        Err(GpwError::Parse(ParseFailure::RowCount))
    );
    assert_eq!(
        GpwAscii::parse(small("").as_bytes()),
        Err(GpwError::Parse(ParseFailure::RowCount))
    );
}

#[test]
fn grid_header_failure_is_the_grid_failure() {
    assert_eq!(GpwAscii::parse(b"ncols 1\n"), Err(GpwError::IncompleteHeader));
    assert_eq!(
        GpwAscii::parse(b"cellsize\n"),
        Err(GpwError::Parse(ParseFailure::MissingValue(HeaderField::Cellsize)))
    );
}
