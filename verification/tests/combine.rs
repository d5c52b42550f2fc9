use gpwgen::address::HexAddress;
use gpwgen::combine::{combine, ingest};
use gpwgen::error::GpwError;
use gpwgen::record::{decode_stream, encode_stream, Record};
use gpwgen::tree::AggregationTree;

const CELL: u64 = 0x85283473fffffff;

fn sum(vals: Vec<u32>) -> u32 {
    let mut total = f32::from_bits(vals[0]);
    for bits in &vals[1..] {
        total += f32::from_bits(*bits);
    }
    total.to_bits()
}

fn siblings() -> Vec<Record> {
    let parent = HexAddress::from_raw(CELL).unwrap();
    (0..7u8)
        .map(|d| Record {
            address: parent.child(d).unwrap().raw(),
            value: ((d + 1) as f32).to_bits(),
        })
        .collect()
}

fn sorted(stream: &[u8]) -> Vec<(u64, f32)> {
    let mut all: Vec<(u64, f32)> = decode_stream(stream)
        .unwrap()
        .iter()
        .map(|r| (r.address, f32::from_bits(r.value)))
        .collect();
    all.sort_by_key(|e| e.0);
    all
}

#[test]
fn seven_siblings_at_the_floor_of_their_parent_give_one_record() {
    let source = encode_stream(&siblings());
    let out = combine(5, &vec![source], &sum).unwrap();
    assert_eq!(out.len(), 12);
    assert_eq!(
        decode_stream(&out),
        Ok(vec![Record { address: CELL, value: 28.0f32.to_bits() }])
    );
}

#[test]
fn seven_siblings_at_the_floor_itself_stay_seven() {
    let source = encode_stream(&siblings());
    let out = combine(6, &vec![source], &sum).unwrap();
    let mut want: Vec<(u64, f32)> =
        siblings().iter().map(|r| (r.address, f32::from_bits(r.value))).collect();
    want.sort_by_key(|e| e.0);
    assert_eq!(sorted(&out), want);
}

#[test]
fn siblings_spread_over_sources_compact_all_the_same() {
    let all = siblings();
    let sources = vec![
        encode_stream(&all[..3].to_vec()),
        Vec::new(),
        encode_stream(&all[3..].to_vec()),
    ];
    let out = combine(0, &sources, &sum).unwrap();
    assert_eq!(sorted(&out), vec![(CELL, 28.0)]);
}

#[test]
fn no_sources_give_an_empty_stream() {
    assert_eq!(combine(8, &Vec::new(), &sum), Ok(Vec::new()));
    assert_eq!(combine(8, &vec![Vec::new()], &sum), Ok(Vec::new()));
}

#[test]
fn a_later_record_for_the_same_cell_overwrites() {
    let records = vec![
        Record { address: CELL, value: 1.0f32.to_bits() },
        Record { address: CELL, value: 2.0f32.to_bits() },
    ];
    let out = combine(8, &vec![encode_stream(&records)], &sum).unwrap();
    assert_eq!(sorted(&out), vec![(CELL, 2.0)]);
}

#[test]
fn thirteen_bytes_are_a_malformed_stream() {
    let mut source = encode_stream(&siblings()[..1].to_vec());
    source.push(0x85);
    assert_eq!(source.len(), 13);
    assert_eq!(combine(5, &vec![source], &sum), Err(GpwError::MalformedRecordStream));
}

#[test]
fn a_stream_cut_inside_a_record_is_malformed() {
    let whole = encode_stream(&siblings());
    for cut in [1usize, 7, 8, 11, 13, 20, 83] {
        assert_eq!(
            combine(5, &vec![whole[..cut].to_vec()], &sum),
            Err(GpwError::MalformedRecordStream),
            "{}",
            cut
        );
    }
    assert!(combine(5, &vec![whole[..72].to_vec()], &sum).is_ok());
}

#[test]
fn a_key_that_is_no_cell_is_refused() {
    let records = vec![
        Record { address: CELL, value: 1 },
        Record { address: 12345, value: 2 },
    ];
    assert_eq!(
        combine(5, &vec![encode_stream(&records)], &sum),
        Err(GpwError::InvalidAddress(12345))
    );
}

#[test]
fn the_first_failure_is_reported() {
    let bad_key = encode_stream(&vec![Record { address: 7, value: 2 }]);
    let mut cut = encode_stream(&siblings());
    cut.pop();
    assert_eq!(
        combine(5, &vec![bad_key.clone(), cut.clone()], &sum),
        Err(GpwError::InvalidAddress(7))
    );
    assert_eq!(
        combine(5, &vec![cut.clone(), bad_key.clone()], &sum),
        Err(GpwError::MalformedRecordStream)
    );
    // within one stream the bad key comes before the cut end
    let mut both = bad_key;
    both.extend_from_slice(&[1, 2, 3]);
    assert_eq!(combine(5, &vec![both], &sum), Err(GpwError::InvalidAddress(7)));
}

#[test]
fn ingest_inserts_every_record() {
    let mut tree = AggregationTree::new(6);
    assert_eq!(ingest(&mut tree, &encode_stream(&siblings()), &sum), Ok(()));
    assert_eq!(tree.entries().len(), 7);
    let mut tree = AggregationTree::new(5);
    assert_eq!(ingest(&mut tree, &encode_stream(&siblings()), &sum), Ok(()));
    assert_eq!(tree.entries(), vec![Record { address: CELL, value: 28.0f32.to_bits() }]);
    assert_eq!(ingest(&mut tree, &[0u8; 5], &sum), Err(GpwError::MalformedRecordStream));
}
