use geo::{Coord, LineString, Polygon};
use gpwgen::generate::{gen_to_disk, sampled_cells, write_cell, RasterCell, Tessellated};
use gpwgen::gpwascii::{GpwAscii, GpwAsciiHeader, Numeral};
use gpwgen::record::{decode_stream, Record};
use h3o::geom::TilerBuilder;
use h3o::Resolution;

const GRID: &str = "ncols         4
nrows         4
xllcorner     -180
yllcorner     -4.2632564145606e-14
cellsize      0.0083333333333333
NODATA_value  -9999
-9999 -9999 -9999 -9999
-9999 -9999 -9999 -9999
-9999 -9999 -9999 -9999
-9999 -9999 0.123 -9999
";

fn double(n: &Numeral) -> f64 {
    std::str::from_utf8(&n.text).unwrap().parse().unwrap()
}

fn single(n: &Numeral) -> f32 {
    std::str::from_utf8(&n.text).unwrap().parse().unwrap()
}

fn corners(header: &GpwAsciiHeader, row: usize, col: usize) -> (f64, f64, f64, f64) {
    let cellsize = double(&header.cellsize);
    let south = double(&header.yllcorner) + cellsize * header.south_steps(row).unwrap() as f64;
    let north = south + cellsize;
    let west = double(&header.xllcorner) + cellsize * col as f64;
    let east = west + cellsize;
    (south, north, west, east)
}

fn cover(header: &GpwAsciiHeader, row: usize, col: usize, resolution: Resolution) -> Vec<u64> {
    let (south, north, west, east) = corners(header, row, col);
    let ring = LineString::new(vec![
        Coord { x: west, y: south },
        Coord { x: east, y: south },
        Coord { x: east, y: north },
        Coord { x: west, y: north },
        Coord { x: west, y: south },
    ]);
    let mut tiler = TilerBuilder::new(resolution).build();
    tiler.add(Polygon::new(ring, vec![])).unwrap();
    tiler.into_coverage().map(u64::from).collect()
}

fn tessellate(grid: &GpwAscii, resolution: Resolution) -> Vec<(usize, usize, Tessellated)> {
    let mut cells = Vec::new();
    for RasterCell { row, col } in sampled_cells(grid) {
        let sample = grid.data[row][col].as_ref().unwrap();
        let addresses = cover(&grid.header, row, col, resolution);
        let share = (single(sample) / addresses.len() as f32).to_bits();
        cells.push((row, col, Tessellated { addresses, share }));
    }
    cells
}

fn total(records: &[Record]) -> f32 {
    records.iter().map(|r| f32::from_bits(r.value)).sum()
}

#[test]
fn cell_corners_keep_the_offset_of_one() {
    let text = "ncols 2\nnrows 1\nxllcorner -10\nyllcorner 0\ncellsize 1\nNODATA_value -9999\n-9999 5.0\n";
    let grid = GpwAscii::parse(text.as_bytes()).unwrap();
    assert_eq!(corners(&grid.header, 0, 0), (2.0, 3.0, -10.0, -9.0));
    assert_eq!(corners(&grid.header, 0, 1), (2.0, 3.0, -9.0, -8.0));
}

#[test]
fn cell_without_data_gives_no_records_and_shares_sum_to_the_sample() {
    let text = "ncols 2\nnrows 1\nxllcorner -10\nyllcorner 0\ncellsize 1\nNODATA_value -9999\n-9999 5.0\n";
    let grid = GpwAscii::parse(text.as_bytes()).unwrap();
    assert_eq!(grid.data[0][0], None);
    // a coarser resolution than the one used in production keeps the cover small
    let cells = tessellate(&grid, Resolution::Five);
    assert_eq!(cells.len(), 1);
    let (row, col, cell) = &cells[0];
    assert_eq!((*row, *col), (0, 1));
    assert!(cell.addresses.len() > 1);
    let mut out = Vec::new();
    gen_to_disk(&vec![cell.clone()], &mut out);
    let records = decode_stream(&out).unwrap();
    assert_eq!(records.len(), cell.addresses.len());
    for (rec, address) in records.iter().zip(&cell.addresses) {
        assert_eq!(rec.address, *address);
        assert_eq!(rec.value, cell.share);
    }
    assert!((total(&records) - 5.0).abs() < 1e-4, "{}", total(&records));
}

#[test]
fn shares_of_every_cell_sum_to_its_sample() {
    let text = "ncols 2\nnrows 2\nxllcorner 10\nyllcorner 40\ncellsize 0.25\nNODATA_value -1\n1.5 1000\n0.001 123456.7\n";
    let grid = GpwAscii::parse(text.as_bytes()).unwrap();
    let cells = tessellate(&grid, Resolution::Six);
    assert_eq!(cells.len(), 4);
    for (row, col, cell) in &cells {
        let sample = single(grid.data[*row][*col].as_ref().unwrap());
        let mut out = Vec::new();
        write_cell(&cell.addresses, cell.share, &mut out);
        let records = decode_stream(&out).unwrap();
        assert_eq!(records.len(), cell.addresses.len());
        assert!(!records.is_empty());
        let sum = total(&records);
        assert!((sum - sample).abs() <= sample * 1e-4, "{} against {}", sum, sample);
    }
}

#[test]
fn generate_test_gen_to_disk() {
    let data = GpwAscii::parse(GRID.as_bytes()).unwrap();
    let cells: Vec<Tessellated> =
        tessellate(&data, Resolution::Ten).into_iter().map(|(_, _, cell)| cell).collect();
    let mut dst = Vec::new();
    gen_to_disk(&cells, &mut dst);
    assert!(!dst.is_empty());
    assert_eq!(dst.len() % 12, 0);
}

#[test]
fn lib_test_gen_to_disk() {
    let data = GpwAscii::parse(GRID.as_bytes()).unwrap();
    let cells = tessellate(&data, Resolution::Ten);
    assert_eq!(cells.len(), 1);
    assert_eq!((cells[0].0, cells[0].1), (3, 2));
    let cells: Vec<Tessellated> = cells.into_iter().map(|(_, _, cell)| cell).collect();
    let mut dst = Vec::new();
    gen_to_disk(&cells, &mut dst);
    let records = decode_stream(&dst).unwrap();
    assert_eq!(records.len(), cells[0].addresses.len());
    for rec in &records {
        assert!(gpwgen::address::HexAddress::from_raw(rec.address).is_ok());
        assert_eq!(gpwgen::address::HexAddress::from_raw(rec.address).unwrap().resolution(), 10);
    }
    assert!((total(&records) - 0.123).abs() < 1e-6);
}

#[test]
fn records_follow_the_cells_in_their_order() {
    let cells = vec![
        Tessellated { addresses: vec![3, 1], share: 7 },
        Tessellated { addresses: vec![], share: 8 },
        Tessellated { addresses: vec![2], share: 9 },
    ];
    let mut dst = vec![0xaa];
    gen_to_disk(&cells, &mut dst);
    assert_eq!(dst[0], 0xaa);
    assert_eq!(
        decode_stream(&dst[1..]),
        Ok(vec![
            Record { address: 3, value: 7 },
            Record { address: 1, value: 7 },
            Record { address: 2, value: 9 },
        ])
    );
}

#[test]
fn cells_to_tessellate_are_those_with_data_in_reading_order() {
    let text = "ncols 3\nnrows 3\nxllcorner 0\nyllcorner 0\ncellsize 1\nNODATA_value NA\nNA 1 2\nNA NA NA\n3 NA 4\n";
    let grid = GpwAscii::parse(text.as_bytes()).unwrap();
    assert_eq!(
        sampled_cells(&grid),
        vec![
            RasterCell { row: 0, col: 1 },
            RasterCell { row: 0, col: 2 },
            RasterCell { row: 2, col: 0 },
            RasterCell { row: 2, col: 2 },
        ]
    );
}

#[test]
fn grid_without_data_has_nothing_to_tessellate() {
    let text = "ncols 2\nnrows 1\nxllcorner 0\nyllcorner 0\ncellsize 1\nNODATA_value -9999\n-9999 -9999\n";
    let grid = GpwAscii::parse(text.as_bytes()).unwrap();
    assert_eq!(sampled_cells(&grid), Vec::new());
    let data = GpwAscii::parse(GRID.as_bytes()).unwrap();
    assert_eq!(sampled_cells(&data), vec![RasterCell { row: 3, col: 2 }]);
}
