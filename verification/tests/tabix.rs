use bgzip::index::tbi::{
    convert_data_to_u64, decide, find_field, LineAction, TabixFile, TabixIndex, Verdict,
};
use bgzip::index::{reg2bin, reg2bins, RegionSimplify};
use bgzip::read::BGZFReader;
use bgzip::write::compress;
use bgzip::BGZFError;
use std::collections::BTreeMap;
use std::io::Write;

struct Record {
    seqname: &'static str,
    start: u64,
    stop: u64,
    line: String,
}

struct Reference {
    name: &'static str,
    bins: BTreeMap<u32, Vec<(u64, u64)>>,
    interval: Vec<u64>,
}

fn put_u32(out: &mut Vec<u8>, v: u32) {
    out.extend_from_slice(&v.to_le_bytes());
}

fn put_u64(out: &mut Vec<u8>, v: u64) {
    out.extend_from_slice(&v.to_le_bytes());
}

fn gzip(data: &[u8]) -> Vec<u8> {
    let mut encoder = flate2::write::GzEncoder::new(Vec::new(), flate2::Compression::default());
    encoder.write_all(data).unwrap();
    encoder.finish().unwrap()
}

fn tbi_bytes(format: u32, cols: (u32, u32, u32), meta: u8, refs: &[Reference]) -> Vec<u8> {
    let mut out = b"TBI\x01".to_vec();
    put_u32(&mut out, refs.len() as u32);
    put_u32(&mut out, format);
    put_u32(&mut out, cols.0);
    put_u32(&mut out, cols.1);
    put_u32(&mut out, cols.2);
    put_u32(&mut out, meta as u32);
    put_u32(&mut out, 0);
    let mut names = Vec::new();
    for one in refs {
        names.extend_from_slice(one.name.as_bytes());
        names.push(0);
    }
    put_u32(&mut out, names.len() as u32);
    out.extend_from_slice(&names);
    for one in refs {
        put_u32(&mut out, one.bins.len() as u32);
        for (bin, chunks) in &one.bins {
            put_u32(&mut out, *bin);
            put_u32(&mut out, chunks.len() as u32);
            for chunk in chunks {
                put_u64(&mut out, chunk.0);
                put_u64(&mut out, chunk.1);
            }
        }
        put_u32(&mut out, one.interval.len() as u32);
        for ioff in &one.interval {
            put_u64(&mut out, *ioff);
        }
    }
    out
}

fn gff_records() -> Vec<Record> {
    let mut records = Vec::new();
    let mut state: u64 = 12345;
    for (seqname, base, count) in [("chr17", 42_985_000u64, 320u64), ("chr18", 20_000u64, 120u64)] {
        let mut start = base;
        for i in 0..count {
            state = state.wrapping_mul(6364136223846793005).wrapping_add(1442695040888963407);
            start += (state >> 33) % 60;
            state = state.wrapping_mul(6364136223846793005).wrapping_add(1442695040888963407);
            let stop = start + (state >> 33) % 900;
            let line = format!(
                "{}\tHAVANA\texon\t{}\t{}\t.\t+\t.\tID=exon:{}.{};note=made up\n",
                seqname, start, stop, seqname, i
            );
            records.push(Record { seqname, start, stop, line });
        }
    }
    records
}

fn gff_text(records: &[Record]) -> Vec<u8> {
    let mut text = b"##gff-version 3\n#description: a made-up annotation\n".to_vec();
    for record in records {
        text.extend_from_slice(record.line.as_bytes());
    }
    text
}

/// The compressed file and its index, built the way an indexer would.
fn gff_file() -> (Vec<Record>, Vec<u8>, Vec<u8>) {
    let records = gff_records();
    let data = compress(&gff_text(&records), 6, 3000).unwrap();
    let mut reader = BGZFReader::new(data.clone()).unwrap();
    let mut line = Vec::new();
    for _ in 0..2 {
        line.clear();
        reader.read_until(b'\n', &mut line).unwrap();
        assert_eq!(line[0], b'#');
    }
    let mut places = Vec::new();
    for record in &records {
        let from = reader.tell_vfo();
        line.clear();
        reader.read_until(b'\n', &mut line).unwrap();
        assert_eq!(line, record.line.as_bytes());
        places.push((from, reader.tell_vfo()));
    }
    let mut refs = Vec::new();
    for name in ["chr17", "chr18"] {
        let mut bins: BTreeMap<u32, Vec<(u64, u64)>> = BTreeMap::new();
        let mut last_end = 0;
        let mut max_start = 0;
        for (record, place) in records.iter().zip(&places) {
            if record.seqname != name {
                continue;
            }
            let chunks = bins.entry(reg2bin(record.start - 1, record.stop)).or_default();
            match chunks.last_mut() {
                Some(chunk) if chunk.1 == place.0 => chunk.1 = place.1,
                _ => chunks.push(*place),
            }
            last_end = place.1;
            max_start = record.start - 1;
        }
        let mut interval = Vec::new();
        for window in 0..=(max_start / 16384 + 1) {
            let first = records
                .iter()
                .zip(&places)
                .find(|(record, _)| record.seqname == name && record.start - 1 >= window * 16384);
            interval.push(match first {
                Some((_, place)) => place.0,
                None => last_end,
            });
        }
        refs.push(Reference { name, bins, interval });
    }
    let index = gzip(&tbi_bytes(0, (1, 4, 5), b'#', &refs));
    (records, data, index)
}

fn small_index(format: u32, cols: (u32, u32, u32)) -> TabixIndex {
    let mut bins = BTreeMap::new();
    bins.insert(4681, vec![(10, 20), (15, 40)]);
    bins.insert(0, vec![(100, 200)]);
    bins.insert(585, vec![(40, 60), (300, 300)]);
    let refs = vec![
        Reference { name: "one", bins, interval: vec![5, 6, 7, 8] },
        Reference { name: "two", bins: BTreeMap::new(), interval: vec![] },
    ];
    TabixIndex::parse(&tbi_bytes(format, cols, b'#', &refs)).unwrap()
}

#[test]
fn test_load() {
    let (_, _, index) = gff_file();
    let tabix = TabixIndex::new(&index).unwrap();
    assert_eq!(tabix.n_ref, 2);
    assert_eq!(tabix.format, 0);
    assert_eq!((tabix.col_seq, tabix.col_beg, tabix.col_end), (1, 4, 5));
    assert_eq!(tabix.meta, b'#' as u32);
    assert_eq!(tabix.skip, 0);
    assert_eq!(tabix.l_nm, 12);
    assert_eq!(tabix.names, vec![b"chr17".to_vec(), b"chr18".to_vec()]);
    assert_eq!(tabix.names(), &[b"chr17".to_vec(), b"chr18".to_vec()][..]);
    assert_eq!(tabix.seq_index.len(), 2);
    assert_eq!(tabix.seq_index[0].n_intv as usize, tabix.seq_index[0].interval.len());
    assert_eq!(tabix.seq_index[0].n_bin as usize, tabix.seq_index[0].bins.len());
    // The first record stands after the two comment lines.
    assert_eq!(tabix.seq_index[0].interval[0], 16 + 35);
    assert_eq!(tabix.name2rid(b"chr17"), 0);
    assert_eq!(tabix.name2rid(b"chr18"), 1);
    assert_eq!(tabix.lookup_name(b"chr19"), None);
    assert_eq!(tabix.rid2name(1), b"chr18");
}

#[test]
fn test_fetch() {
    let (records, data, index) = gff_file();
    let mut reader = TabixFile::new(data, &index).unwrap();
    reader.fetch0(0, 42990000, 42990600).unwrap();
    let actual_data = reader.read_all().unwrap();

    let expected_data: Vec<&Record> = records
        .iter()
        .filter(|x| x.seqname == "chr17" && x.start - 1 < 42990600 && 42990000 < x.stop)
        .collect();
    assert!(expected_data.len() > 10);
    assert!(expected_data.len() < 100);
    assert_eq!(actual_data.len(), expected_data.len());
    for (x, y) in actual_data.iter().zip(expected_data) {
        assert_eq!(x.data, y.line.as_bytes());
        assert_eq!(x.begin, y.start - 1);
        assert_eq!(x.end, y.stop);
    }
    assert_eq!(reader.read(&mut Vec::new()), Ok(None));
}

fn boundaries(records: &[Record], seqname: &str) -> Vec<u64> {
    let mut pos_list = Vec::new();
    for record in records.iter().filter(|x| x.seqname == seqname) {
        for pos in [
            record.start - 1,
            record.start,
            record.start + 1,
            record.stop - 1,
            record.stop,
            record.stop + 1,
        ] {
            pos_list.push(pos);
        }
    }
    pos_list.sort();
    pos_list.dedup();
    pos_list.truncate(70);
    pos_list
}

#[test]
fn test_fetch2() {
    let (records, data, index) = gff_file();
    let mut indexed_file = TabixFile::new(data, &index).unwrap();
    for seqname in ["chr17", "chr18"] {
        let rid = indexed_file.tabix.name2rid(seqname.as_bytes());
        let pos_list = boundaries(&records, seqname);
        assert_eq!(pos_list.len(), 70);
        for (i, start) in pos_list.iter().enumerate() {
            for end in pos_list.iter().skip(i) {
                let expected: Vec<(u64, u64, String)> = records
                    .iter()
                    .filter(|x| x.seqname == seqname && *start <= x.stop && x.start <= *end)
                    .map(|x| (x.start, x.stop, x.line.clone()))
                    .collect();
                indexed_file.fetch0(rid, *start - 1, *end).unwrap();
                let actual: Vec<(u64, u64, String)> = indexed_file
                    .read_all()
                    .unwrap()
                    .into_iter()
                    .map(|x| (x.begin + 1, x.end, String::from_utf8(x.data).unwrap()))
                    .collect();
                assert_eq!(expected, actual, "len: {} / {}", expected.len(), actual.len());
            }
        }
    }
}

#[test]
fn test_fetch_start() {
    let (records, data, index) = gff_file();
    let mut indexed_file = TabixFile::new(data, &index).unwrap();
    for seqname in ["chr17", "chr18"] {
        let rid = indexed_file.tabix.name2rid(seqname.as_bytes());
        let pos_list = boundaries(&records, seqname);
        for (i, start) in pos_list.iter().enumerate() {
            for end in pos_list.iter().skip(i) {
                let expected: Vec<(u64, u64, String)> = records
                    .iter()
                    .filter(|x| x.seqname == seqname && *start <= x.start && x.start <= *end)
                    .map(|x| (x.start, x.stop, x.line.clone()))
                    .collect();
                indexed_file.fetch_start0(rid, *start - 1, *end).unwrap();
                let actual: Vec<(u64, u64, String)> = indexed_file
                    .read_all()
                    .unwrap()
                    .into_iter()
                    .map(|x| (x.begin + 1, x.end, String::from_utf8(x.data).unwrap()))
                    .collect();
                assert_eq!(
                    expected,
                    actual,
                    "pos {}-{} / len: {} / {}",
                    start,
                    end,
                    expected.len(),
                    actual.len(),
                );
            }
        }
    }
}

#[test]
fn fetch_of_everything_and_of_nothing() {
    let (records, data, index) = gff_file();
    let mut file = TabixFile::new(data, &index).unwrap();
    file.fetch0(1, 0, 1 << 29).unwrap();
    let all = file.read_all().unwrap();
    assert_eq!(all.len(), 120);
    assert_eq!(all[0].data, records[320].line.as_bytes());
    file.fetch0(0, 0, 1000).unwrap();
    assert_eq!(file.read_all().unwrap().len(), 0);
    file.fetch_start0(1, 0, 1 << 40).unwrap();
    assert_eq!(file.read_all().unwrap().len(), 120);
    assert_eq!(file.fetch0(2, 0, 1000), Err(BGZFError::OutOfIndex));
    assert_eq!(file.fetch_start0(2, 0, 1000), Err(BGZFError::OutOfIndex));
    assert_eq!(file.fetch_start0(1, 1 << 40, 1 << 41), Err(BGZFError::OutOfIndex));
    // A failed fetch leaves the scan as it was: at its end.
    assert_eq!(file.read(&mut Vec::new()), Ok(None));
}

#[test]
fn index_in_several_gzip_members_is_read() {
    let (_, _, index) = gff_file();
    let mut plain = Vec::new();
    std::io::Read::read_to_end(&mut flate2::read::MultiGzDecoder::new(&index[..]), &mut plain)
        .unwrap();
    let blocked = compress(&plain, 6, 1000).unwrap();
    let tabix = TabixIndex::new(&blocked).unwrap();
    assert_eq!(tabix, TabixIndex::new(&index).unwrap());
    assert_eq!(tabix, TabixIndex::parse(&plain).unwrap());
}

#[test]
fn index_that_is_broken_is_refused() {
    let (_, data, index) = gff_file();
    let mut plain = Vec::new();
    std::io::Read::read_to_end(&mut flate2::read::MultiGzDecoder::new(&index[..]), &mut plain)
        .unwrap();

    let mut other = plain.clone();
    other[3] = 2;
    assert_eq!(TabixIndex::parse(&other), Err(BGZFError::NotTabix));
    assert_eq!(TabixIndex::new(&gzip(&other)), Err(BGZFError::NotTabix));
    assert_eq!(TabixIndex::parse(b"BAI\x01"), Err(BGZFError::NotTabix));

    assert_eq!(TabixIndex::parse(b""), Err(BGZFError::Truncated));
    assert_eq!(TabixIndex::parse(b"TBI"), Err(BGZFError::Truncated));
    assert_eq!(TabixIndex::parse(&plain[..35]), Err(BGZFError::Truncated));
    assert_eq!(TabixIndex::parse(&plain[..40]), Err(BGZFError::Truncated));
    assert_eq!(TabixIndex::parse(&plain[..plain.len() - 1]), Err(BGZFError::Truncated));
    assert_eq!(TabixIndex::new(&index[..index.len() / 2]), Err(BGZFError::Truncated));
    assert_eq!(TabixIndex::new(b""), Err(BGZFError::Truncated));
    // Data that is no gzip stream makes the decoder fail.
    assert_eq!(TabixIndex::new(b"not gzip at all"), Err(BGZFError::Io));
    let mut torn = index.clone();
    for byte in torn[20..40].iter_mut() {
        *byte = 0xff;
    }
    assert_eq!(TabixIndex::new(&torn), Err(BGZFError::Io));
    assert_eq!(TabixIndex::from_decoded(&plain[..40], true), Err(BGZFError::Io));
    assert_eq!(TabixIndex::from_decoded(&plain[..40], false), Err(BGZFError::Truncated));
    assert_eq!(TabixIndex::from_decoded(&other, true), Err(BGZFError::NotTabix));
    assert_eq!(TabixIndex::from_decoded(&plain, true), TabixIndex::parse(&plain));

    // Three reference sequences are announced, two are named.
    let mut more = plain.clone();
    more[4] = 3;
    assert_eq!(TabixIndex::parse(&more), Err(BGZFError::Truncated));

    // Bytes after the index are not looked at.
    let mut longer = plain.clone();
    longer.extend_from_slice(b"more");
    assert_eq!(TabixIndex::parse(&longer), TabixIndex::parse(&plain));

    assert!(matches!(TabixFile::new(data.clone(), &gzip(&other)), Err(BGZFError::NotTabix)));
    assert!(matches!(TabixFile::new(vec![1, 2, 3], &index), Err(BGZFError::MalformedBlock)));
    assert!(matches!(TabixFile::new(Vec::new(), &index), Err(BGZFError::InvalidVFO)));
    let none = gzip(&tbi_bytes(0, (1, 4, 5), b'#', &[]));
    assert!(matches!(TabixFile::new(data, &none), Err(BGZFError::OutOfIndex)));
}

#[test]
fn index_fields_and_modes() {
    let generic = small_index(0, (1, 4, 5));
    assert_eq!(generic.n_ref, 2);
    assert_eq!(generic.names, vec![b"one".to_vec(), b"two".to_vec()]);
    assert_eq!(generic.seq_index[0].n_bin, 3);
    assert_eq!(generic.seq_index[0].bins[&4681].bin, 4681);
    assert_eq!(generic.seq_index[0].bins[&4681].n_chunk, 2);
    assert_eq!(generic.seq_index[0].bins[&4681].chunks[1].chunk_beg, 15);
    assert_eq!(generic.seq_index[0].bins[&4681].chunks[1].chunk_end, 40);
    assert_eq!(generic.seq_index[0].interval, vec![5, 6, 7, 8]);
    assert_eq!(generic.seq_index[1].n_bin, 0);
    assert_eq!(generic.seq_index[1].n_intv, 0);
    assert_eq!(generic.col_end, 5);

    // One-based coordinates: the start is one less than the number.
    assert_eq!(generic.parse_record(b"one\t.\t.\t100\t250\tx\n"), Ok((99, 250)));
    let zero_based = small_index(0x10000, (1, 2, 3));
    assert_eq!(zero_based.parse_record(b"one\t100\t250\n"), Err(BGZFError::ParseRecord));
    assert_eq!(zero_based.parse_record(b"one\t100\t250\tx\n"), Ok((100, 250)));
    assert_eq!(zero_based.parse_record(b"one\t0\t0\tx\n"), Ok((0, 0)));
    // In VCF mode the end column is 5 whatever the header says, and the
    // end is the start plus the length of that field.
    let vcf = small_index(2, (1, 2, 0));
    assert_eq!(vcf.col_end, 5);
    assert_eq!(vcf.parse_record(b"one\t100\trs1\tA\tGATTACA\t.\n"), Ok((99, 106)));
    let sam = small_index(1, (3, 4, 4));
    assert_eq!(sam.parse_record(b"r1\t0\tone\t100\t60\n"), Err(BGZFError::Unsupported));

    assert_eq!(generic.parse_record(b"one\t.\t.\t0\t250\tx\n"), Err(BGZFError::ParseRecord));
    assert_eq!(generic.parse_record(b"one\t.\t.\t1\t250\tx\n"), Ok((0, 250)));
    assert_eq!(generic.parse_record(b"one\t.\t.\tx1\t250\tx\n"), Err(BGZFError::ParseRecord));
    assert_eq!(generic.parse_record(b"one\t.\t.\t100\t\tx\n"), Err(BGZFError::ParseRecord));
    assert_eq!(generic.parse_record(b"one\t.\t.\t100\n"), Err(BGZFError::ParseRecord));
    assert_eq!(generic.parse_record(b"one\t.\t.\t100\t250"), Ok((99, 250)));
    assert_eq!(generic.parse_record(b"one\t.\t.\t100\t250\n"), Err(BGZFError::ParseRecord));
    assert_eq!(small_index(0, (1, 0, 5)).parse_record(b"a\tb\n"), Err(BGZFError::ParseRecord));

    assert_eq!(generic.scan_line(b"", false, 0, 10), Ok(LineAction::NextChunk));
    assert_eq!(generic.scan_line(b"#one\t.\t.\tx\n", false, 0, 10), Ok(LineAction::Skip));
    let line = b"one\t.\t.\t100\t250\tx\n";
    assert_eq!(generic.scan_line(line, false, 249, 300), Ok(LineAction::Emit(99, 250)));
    assert_eq!(generic.scan_line(line, false, 250, 300), Ok(LineAction::Skip));
    assert_eq!(generic.scan_line(line, false, 0, 99), Ok(LineAction::Skip));
    assert_eq!(generic.scan_line(line, false, 0, 98), Ok(LineAction::NextChunk));
    assert_eq!(generic.scan_line(line, true, 99, 100), Ok(LineAction::Emit(99, 250)));
    assert_eq!(generic.scan_line(line, true, 100, 300), Ok(LineAction::Skip));
    assert_eq!(generic.scan_line(line, true, 0, 99), Ok(LineAction::NextChunk));
    assert_eq!(
        generic.scan_line(b"one\t.\t.\t100\tnone\tx\n", false, 0, 10),
        Err(BGZFError::ParseRecord)
    );
}

#[test]
fn verdicts() {
    assert_eq!(decide(false, 10, 20, 19, 30), Verdict::Emit);
    assert_eq!(decide(false, 10, 20, 5, 11), Verdict::Emit);
    assert_eq!(decide(false, 10, 20, 5, 10), Verdict::Skip);
    assert_eq!(decide(false, 10, 20, 20, 30), Verdict::Skip);
    assert_eq!(decide(false, 10, 20, 21, 30), Verdict::NextChunk);
    assert_eq!(decide(true, 10, 20, 10, 11), Verdict::Emit);
    assert_eq!(decide(true, 10, 20, 19, 30), Verdict::Emit);
    assert_eq!(decide(true, 10, 20, 9, 30), Verdict::Skip);
    assert_eq!(decide(true, 10, 20, 20, 30), Verdict::NextChunk);
}

#[test]
fn index_queries() {
    let tabix = small_index(0, (1, 4, 5));
    // Bins 0, 585 and 4681 meet the first positions.
    assert_eq!(tabix.region_chunks(0, 0, 1), vec![(10, 60), (100, 200), (300, 300)]);
    assert_eq!(tabix.region_chunks(0, 131072, 131073), vec![(100, 200)]);
    assert_eq!(tabix.region_chunks(1, 0, 1 << 29), vec![]);

    assert_eq!(tabix.start_chunks(0, 0, 0), Ok((5, 6)));
    assert_eq!(tabix.start_chunks(0, 0, 16382), Ok((5, 6)));
    assert_eq!(tabix.start_chunks(0, 0, 16383), Ok((5, 7)));
    assert_eq!(tabix.start_chunks(0, 16384, 16385), Ok((6, 7)));
    assert_eq!(tabix.start_chunks(0, 16384, 40000), Ok((6, 8)));
    assert_eq!(tabix.start_chunks(0, 49152, u64::MAX), Ok((8, 8)));
    assert_eq!(tabix.start_chunks(0, 65536, 65537), Err(BGZFError::OutOfIndex));
    assert_eq!(tabix.start_chunks(1, 0, 1), Err(BGZFError::OutOfIndex));
    assert_eq!(tabix.start_chunks(2, 0, 1), Err(BGZFError::OutOfIndex));

    assert_eq!(tabix.lookup_name(b"one"), Some(0));
    assert_eq!(tabix.lookup_name(b"two"), Some(1));
    assert_eq!(tabix.lookup_name(b"tw"), None);
    assert_eq!(tabix.lookup_name(b""), None);
    assert_eq!(tabix.rid2name(0), b"one");
}

#[test]
fn later_bin_and_later_name_win() {
    let mut out = b"TBI\x01".to_vec();
    for v in [2u32, 0, 1, 2, 3, 35, 0, 10] {
        put_u32(&mut out, v);
    }
    out.extend_from_slice(b"x\0x\0y\0tail");
    // The bin 7 stands twice in the first reference sequence.
    put_u32(&mut out, 2);
    for chunk in [(1u64, 2u64), (3, 4)] {
        put_u32(&mut out, 7);
        put_u32(&mut out, 1);
        put_u64(&mut out, chunk.0);
        put_u64(&mut out, chunk.1);
    }
    put_u32(&mut out, 0);
    put_u32(&mut out, 0);
    put_u32(&mut out, 0);
    let tabix = TabixIndex::parse(&out).unwrap();
    assert_eq!(tabix.names, vec![b"x".to_vec(), b"x".to_vec(), b"y".to_vec()]);
    assert_eq!(tabix.seq_index[0].n_bin, 2);
    assert_eq!(tabix.seq_index[0].bins.len(), 1);
    assert_eq!(tabix.seq_index[0].bins[&7].chunks[0].chunk_beg, 3);
    assert_eq!(tabix.lookup_name(b"x"), Some(1));
    // A name beyond the reference sequences has no rid.
    assert_eq!(tabix.lookup_name(b"y"), None);
}

#[test]
fn bins() {
    assert_eq!(reg2bin(0, 1), 4681);
    assert_eq!(reg2bin(0, 16384), 4681);
    assert_eq!(reg2bin(0, 16385), 585);
    assert_eq!(reg2bin(16384, 32768), 4682);
    assert_eq!(reg2bin(131071, 131073), 73);
    assert_eq!(reg2bin(0, 1 << 29), 0);
    assert_eq!(reg2bin((1 << 29) - 1, 1 << 29), 37448);
    assert_eq!(reg2bin(42990000, 42990600), 7304);
    assert_eq!(reg2bin((1 << 26) - 1, (1 << 26) + 1), 0);

    let mut out = vec![99];
    reg2bins(0, 1, &mut out);
    assert_eq!(out, vec![99, 0, 1, 9, 73, 585, 4681]);
    let mut out = Vec::new();
    reg2bins(42990000, 42990600, &mut out);
    assert_eq!(out, vec![0, 1, 14, 113, 912, 7304]);
    let mut out = Vec::new();
    reg2bins(16383, 16385, &mut out);
    assert_eq!(out, vec![0, 1, 9, 73, 585, 4681, 4682]);
    let mut out = Vec::new();
    reg2bins(0, 1 << 29, &mut out);
    assert_eq!(out.len(), 1 + 8 + 64 + 512 + 4096 + 32768);
    assert_eq!(out, (0..37449).collect::<Vec<u32>>());

    let mut state: u64 = 7;
    for _ in 0..2000 {
        state = state.wrapping_mul(6364136223846793005).wrapping_add(1);
        let beg = (state >> 35) % (1 << 29);
        state = state.wrapping_mul(6364136223846793005).wrapping_add(1);
        let end = beg + 1 + (state >> 35) % ((1 << 29) - beg);
        let mut out = Vec::new();
        reg2bins(beg, end, &mut out);
        assert!(out.contains(&reg2bin(beg, end)));
        assert!(out.windows(2).all(|w| w[0] < w[1]));
    }
}

#[test]
fn region_simplify() {
    let simplify = RegionSimplify::new();
    assert_eq!(simplify.regions(), vec![]);

    let mut simplify = RegionSimplify::new();
    for (beg, end) in [(50, 60), (10, 20), (20, 30), (31, 40), (15, 18), (70, 70), (55, 65)] {
        simplify.insert(beg, end);
    }
    assert_eq!(simplify.regions(), vec![(10, 30), (31, 40), (50, 65), (70, 70)]);
    simplify.insert(0, 100);
    assert_eq!(simplify.regions(), vec![(0, 100)]);

    let mut state: u64 = 99;
    for _ in 0..200 {
        let mut simplify = RegionSimplify::new();
        let mut covered = [false; 300];
        for _ in 0..12 {
            state = state.wrapping_mul(6364136223846793005).wrapping_add(1);
            let beg = (state >> 40) % 280;
            state = state.wrapping_mul(6364136223846793005).wrapping_add(1);
            let end = beg + (state >> 40) % 20;
            simplify.insert(beg, end);
            for x in beg..end {
                covered[x as usize] = true;
            }
        }
        let regions = simplify.regions();
        assert!(regions.windows(2).all(|w| w[0].1 < w[1].0));
        for x in 0..300u64 {
            assert_eq!(regions.iter().any(|r| r.0 <= x && x < r.1), covered[x as usize]);
        }
    }
}

#[test]
fn decimal_numbers() {
    assert_eq!(convert_data_to_u64(b"0"), Ok(0));
    assert_eq!(convert_data_to_u64(b"42990000"), Ok(42990000));
    assert_eq!(convert_data_to_u64(b"+17"), Ok(17));
    assert_eq!(convert_data_to_u64(b"007"), Ok(7));
    assert_eq!(convert_data_to_u64(b"18446744073709551615"), Ok(u64::MAX));
    assert_eq!(convert_data_to_u64(b"18446744073709551616"), Err(BGZFError::ParseRecord));
    assert_eq!(convert_data_to_u64(b"99999999999999999999"), Err(BGZFError::ParseRecord));
    assert_eq!(convert_data_to_u64(b""), Err(BGZFError::ParseRecord));
    assert_eq!(convert_data_to_u64(b"+"), Err(BGZFError::ParseRecord));
    assert_eq!(convert_data_to_u64(b"-1"), Err(BGZFError::ParseRecord));
    assert_eq!(convert_data_to_u64(b"12a"), Err(BGZFError::ParseRecord));
    assert_eq!(convert_data_to_u64(b" 12"), Err(BGZFError::ParseRecord));
    assert_eq!(convert_data_to_u64(b"12\n"), Err(BGZFError::ParseRecord));
    assert_eq!(convert_data_to_u64(b"1+2"), Err(BGZFError::ParseRecord));
    assert_eq!(convert_data_to_u64(&[0xff, 0x31]), Err(BGZFError::ParseRecord));
    for text in ["0", "+0", "1", "+", "", "-0", "00012", "18446744073709551615", "1e3", "٣"] {
        assert_eq!(convert_data_to_u64(text.as_bytes()).ok(), text.parse::<u64>().ok());
    }
}

#[test]
fn fields() {
    assert_eq!(find_field(b"a\tbc\t\td\n", 0), Some((0, 1)));
    assert_eq!(find_field(b"a\tbc\t\td\n", 1), Some((2, 4)));
    assert_eq!(find_field(b"a\tbc\t\td\n", 2), Some((5, 5)));
    assert_eq!(find_field(b"a\tbc\t\td\n", 3), Some((6, 8)));
    assert_eq!(find_field(b"a\tbc\t\td\n", 4), None);
    assert_eq!(find_field(b"", 0), Some((0, 0)));
    assert_eq!(find_field(b"", 1), None);
    assert_eq!(find_field(b"\t", 1), Some((1, 1)));
}
