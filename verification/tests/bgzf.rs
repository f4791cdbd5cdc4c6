use bgzip::block::{compress_block, decode_block, frame_block, is_eof_marker, write_eof_marker};
use bgzip::header::BGZFHeader;
use bgzip::parallel::{decode_frame, decompress_frames, join_frames, split_frames};
use bgzip::read::{decompress, BGZFReader};
use bgzip::vfo::{vfo_pack, vfo_unpack};
use bgzip::write::{compress, BGZFWriter, DEFAULT_COMPRESS_BLOCK_UNIT};
use bgzip::BGZFError;
use std::io::Read;
use std::io::Write;

const FOOTER_BYTES: [u8; 28] = [
    0x1f, 0x8b, 0x08, 0x04, 0x00, 0x00, 0x00, 0x00, 0x00, 0xff, 0x06, 0x00, 0x42, 0x43, 0x02, 0x00,
    0x1b, 0x00, 0x03, 0x00, 0x00, 0x00, 0x00, 0x00, 0x00, 0x00, 0x00, 0x00,
];

fn pattern(len: usize) -> Vec<u8> {
    (0..len).map(|i| (i % 251) as u8).collect()
}

fn noise(len: usize) -> Vec<u8> {
    let mut state: u64 = 0x2545_f491_4f6c_dd1d;
    let mut out = Vec::with_capacity(len);
    for _ in 0..len {
        state ^= state << 13;
        state ^= state >> 7;
        state ^= state << 17;
        out.push((state >> 24) as u8);
    }
    out
}

fn vcf_text() -> Vec<u8> {
    let mut text = Vec::new();
    text.extend_from_slice(b"##fileformat=VCFv4.0\n#CHROM\tPOS\tID\tREF\tALT\tQUAL\tFILTER\tINFO\n");
    for i in 0..5000u32 {
        let line = format!("1\t{}\trs{}\tA\tG\t.\t.\tRS={};dbSNPBuildID=151\n", 10000 + 7 * i, i, i);
        text.extend_from_slice(line.as_bytes());
    }
    text
}

#[test]
fn test_simple() {
    let mut writer = BGZFWriter::new(Vec::new(), 6);
    assert_eq!(writer.write(b"1234"), Ok(4));
    let out = writer.close().unwrap();
    assert_eq!(&out[out.len() - 28..], &FOOTER_BYTES[..]);
    assert_eq!(decompress(&out), Ok(b"1234".to_vec()));
    let mut plain = Vec::new();
    flate2::read::MultiGzDecoder::new(&out[..]).read_to_end(&mut plain).unwrap();
    assert_eq!(plain, b"1234".to_vec());
}

#[test]
fn test_vcf() {
    let text = vcf_text();
    let mut encoder = flate2::write::GzEncoder::new(Vec::new(), flate2::Compression::default());
    encoder.write_all(&text).unwrap();
    let gz = encoder.finish().unwrap();
    let mut reader = flate2::read::MultiGzDecoder::new(&gz[..]);
    let mut writer = BGZFWriter::new(Vec::new(), 6);
    let mut buf = [0u8; 8192];
    loop {
        let n = reader.read(&mut buf).unwrap();
        if n == 0 {
            break;
        }
        assert_eq!(writer.write(&buf[..n]), Ok(n));
    }
    let out = writer.close().unwrap();
    assert_eq!(decompress(&out), Ok(text.clone()));
    let mut plain = Vec::new();
    flate2::read::MultiGzDecoder::new(&out[..]).read_to_end(&mut plain).unwrap();
    assert_eq!(plain, text);
}

#[test]
fn empty_writer_gives_the_eof_marker() {
    let writer = BGZFWriter::new(Vec::new(), 6);
    let out = writer.close().unwrap();
    assert_eq!(out, FOOTER_BYTES.to_vec());
    assert_eq!(compress(&[], 6, DEFAULT_COMPRESS_BLOCK_UNIT), Ok(FOOTER_BYTES.to_vec()));
    assert_eq!(decompress(&out), Ok(Vec::new()));
}

#[test]
fn eof_marker_is_written_and_known() {
    let mut out = vec![7u8];
    write_eof_marker(&mut out);
    assert_eq!(&out[1..], &FOOTER_BYTES[..]);
    assert!(is_eof_marker(&FOOTER_BYTES));
    assert!(!is_eof_marker(&FOOTER_BYTES[..27]));
    let mut other = FOOTER_BYTES;
    other[27] = 1;
    assert!(!is_eof_marker(&other));
    assert_eq!(decode_block(&FOOTER_BYTES), Ok((Vec::new(), 28)));
    assert_eq!(frame_block(&FOOTER_BYTES), Ok(28));
}

#[test]
fn multi_block_round_trip() {
    let data = pattern(200_000);
    let stream = compress(&data, 6, DEFAULT_COMPRESS_BLOCK_UNIT).unwrap();
    assert_eq!(decompress(&stream), Ok(data.clone()));
    let (frames, complete) = split_frames(&stream);
    assert!(complete);
    assert_eq!(frames.len(), 5);
    assert_eq!(frames[0].0, 0);
    assert_eq!(frames[4].1, stream.len());
    assert_eq!(&stream[frames[4].0..], &FOOTER_BYTES[..]);
    let first = decode_frame(&stream[frames[0].0..frames[0].1]).unwrap();
    assert_eq!(first.len(), 65280);
    let last = decode_frame(&stream[frames[3].0..frames[3].1]).unwrap();
    assert_eq!(last.len(), 200_000 - 3 * 65280);
}

#[test]
fn round_trip_at_every_level() {
    let data = pattern(10_000);
    for level in 0..=9u32 {
        let stream = compress(&data, level, 4096).unwrap();
        assert_eq!(decompress(&stream), Ok(data.clone()));
        assert_eq!(&stream[stream.len() - 28..], &FOOTER_BYTES[..]);
        let (frames, complete) = split_frames(&stream);
        assert!(complete);
        assert_eq!(frames.len(), 4);
    }
}

#[test]
fn round_trip_with_small_and_large_blocks() {
    let data = noise(70_000);
    for block_size in [1usize, 2, 255, 65279, 65280] {
        let piece = if block_size < 3 {
            &data[..300]
        } else {
            &data[..]
        };
        let stream = compress(piece, 1, block_size).unwrap();
        assert_eq!(decompress(&stream), Ok(piece.to_vec()));
        let (frames, complete) = split_frames(&stream);
        assert!(complete);
        assert_eq!(frames.len(), (piece.len() + block_size - 1) / block_size + 1);
    }
}

#[test]
fn compressed_data_is_not_the_data() {
    let data = vec![b'a'; 1000];
    let stream = compress(&data, 6, DEFAULT_COMPRESS_BLOCK_UNIT).unwrap();
    assert!(stream.len() < 100);
    let header = BGZFHeader::parse(&stream).unwrap();
    let total = header.block_size as usize + 1;
    assert_eq!(total + 28, stream.len());
    let mut inflated = Vec::new();
    flate2::read::DeflateDecoder::new(&stream[18..total - 8]).read_to_end(&mut inflated).unwrap();
    assert_eq!(inflated, data);
}

#[test]
fn block_layout_is_exact() {
    let mut out = Vec::new();
    assert_eq!(compress_block(&mut out, b"1234", 6), Ok(()));
    assert_eq!(&out[..16], &FOOTER_BYTES[..16]);
    let total = out.len();
    assert_eq!(out[16] as usize + 256 * out[17] as usize, total - 1);
    assert_eq!(&out[total - 8..total - 4], &[0xa3, 0xe0, 0xe3, 0x9b]);
    assert_eq!(&out[total - 4..], &[4, 0, 0, 0]);
    let header = BGZFHeader::parse(&out).unwrap();
    assert_eq!(header.flags, 4);
    assert_eq!(header.modified_time, 0);
    assert_eq!(header.extra_flags, 0);
    assert_eq!(header.operation_system, 0xff);
    assert_eq!(header.xlen, 6);
    assert_eq!(header.block_size as usize, total - 1);
    assert_eq!(header.header_size, 18);
    assert_eq!(decode_block(&out), Ok((b"1234".to_vec(), total)));
}

#[test]
fn block_from_another_writer_is_read() {
    let payload = b"hello, blocked gzip\n".to_vec();
    let mut encoder =
        flate2::write::DeflateEncoder::new(Vec::new(), flate2::Compression::default());
    encoder.write_all(&payload).unwrap();
    let cdata = encoder.finish().unwrap();
    let mut crc = flate2::Crc::new();
    crc.update(&payload);
    // A header with a foreign subfield before the BC subfield, a file name,
    // a comment and a header checksum.
    let name = b"reads.txt\0";
    let comment = b"made by hand\0";
    let xlen: usize = 4 + 3 + 6;
    let header_len = 12 + xlen + name.len() + comment.len() + 2;
    let total = header_len + cdata.len() + 8;
    let mut block = vec![0x1f, 0x8b, 0x08, 0x04 | 0x08 | 0x10 | 0x02, 1, 2, 3, 4, 2, 3];
    block.extend_from_slice(&(xlen as u16).to_le_bytes());
    block.extend_from_slice(&[b'X', b'Y', 3, 0, 9, 9, 9]);
    block.extend_from_slice(&[0x42, 0x43, 2, 0]);
    block.extend_from_slice(&((total - 1) as u16).to_le_bytes());
    block.extend_from_slice(name);
    block.extend_from_slice(comment);
    block.extend_from_slice(&[0xaa, 0xbb]);
    block.extend_from_slice(&cdata);
    block.extend_from_slice(&crc.sum().to_le_bytes());
    block.extend_from_slice(&(payload.len() as u32).to_le_bytes());
    assert_eq!(block.len(), total);

    let header = BGZFHeader::parse(&block).unwrap();
    assert_eq!(header.modified_time, 0x04030201);
    assert_eq!(header.extra_flags, 2);
    assert_eq!(header.operation_system, 3);
    assert_eq!(header.xlen as usize, xlen);
    assert_eq!(header.block_size as usize, total - 1);
    assert_eq!(header.header_size, header_len);
    assert_eq!(frame_block(&block), Ok(total));
    assert_eq!(decode_block(&block), Ok((payload.clone(), total)));

    let mut stream = block.clone();
    stream.extend_from_slice(&FOOTER_BYTES);
    assert_eq!(decompress(&stream), Ok(payload.clone()));
    assert_eq!(decompress_frames(&stream), Ok(payload));
}

#[test]
fn broken_blocks_are_refused() {
    let stream = compress(b"some data to break", 6, DEFAULT_COMPRESS_BLOCK_UNIT).unwrap();
    let block_len = stream.len() - 28;

    let mut bad_magic = stream.clone();
    bad_magic[0] = 0x1e;
    assert_eq!(decompress(&bad_magic), Err(BGZFError::MalformedBlock));
    assert_eq!(decode_block(&bad_magic), Err(BGZFError::MalformedBlock));

    let mut bad_method = stream.clone();
    bad_method[2] = 7;
    assert_eq!(decompress(&bad_method), Err(BGZFError::MalformedBlock));

    let mut no_extra = stream.clone();
    no_extra[3] = 0;
    assert_eq!(decompress(&no_extra), Err(BGZFError::MalformedBlock));

    let mut no_bc = stream.clone();
    no_bc[12] = b'X';
    assert_eq!(BGZFHeader::parse(&no_bc), Err(BGZFError::MalformedBlock));
    assert_eq!(decompress(&no_bc), Err(BGZFError::MalformedBlock));

    let mut bad_crc = stream.clone();
    bad_crc[block_len - 8] ^= 1;
    assert_eq!(decompress(&bad_crc), Err(BGZFError::MalformedBlock));

    let mut bad_size = stream.clone();
    bad_size[block_len - 4] ^= 1;
    assert_eq!(decompress(&bad_size), Err(BGZFError::MalformedBlock));

    let mut bad_data = stream.clone();
    bad_data[18] = 0xff;
    bad_data[19] = 0xff;
    assert_eq!(decompress(&bad_data), Err(BGZFError::MalformedBlock));

    assert_eq!(decompress(&stream[..block_len - 1]), Err(BGZFError::MalformedBlock));
    assert_eq!(decompress(&stream[..10]), Err(BGZFError::MalformedBlock));
    assert_eq!(frame_block(&stream[..block_len - 1]), Err(BGZFError::MalformedBlock));

    // Without the marker the stream ends where its data ends.
    assert_eq!(decompress(&stream[..block_len]), Ok(b"some data to break".to_vec()));
    // Nothing after the marker is read.
    let mut trailing = stream.clone();
    trailing.extend_from_slice(b"junk");
    assert_eq!(decompress(&trailing), Ok(b"some data to break".to_vec()));
    assert_eq!(decompress_frames(&trailing), Ok(b"some data to break".to_vec()));
}

#[test]
fn frames_give_what_the_stream_gives() {
    let data = noise(150_000);
    let stream = compress(&data, 3, 10_000).unwrap();
    assert_eq!(decompress_frames(&stream), decompress(&stream));
    assert_eq!(decompress_frames(&stream), Ok(data.clone()));

    let (frames, complete) = split_frames(&stream);
    assert!(complete);
    assert_eq!(frames.len(), 16);
    let mut results: Vec<Option<Vec<u8>>> =
        frames.iter().rev().map(|&(from, to)| decode_frame(&stream[from..to])).collect();
    results.reverse();
    assert_eq!(join_frames(&results, complete), Ok(data.clone()));

    let mut broken = stream.clone();
    let at = frames[7].0 + 20;
    broken[at] ^= 0x55;
    assert_eq!(decompress(&broken), Err(BGZFError::MalformedBlock));
    assert_eq!(decompress_frames(&broken), Err(BGZFError::MalformedBlock));

    let cut = &stream[..frames[5].1 + 3];
    let (cut_frames, cut_complete) = split_frames(cut);
    assert_eq!(cut_frames.len(), 6);
    assert!(!cut_complete);
    assert_eq!(decompress(cut), Err(BGZFError::MalformedBlock));
    assert_eq!(decompress_frames(cut), Err(BGZFError::MalformedBlock));

    assert_eq!(join_frames(&vec![], true), Ok(Vec::new()));
    assert_eq!(join_frames(&vec![], false), Err(BGZFError::MalformedBlock));
    assert_eq!(join_frames(&vec![Some(vec![1]), None], true), Err(BGZFError::MalformedBlock));
    assert_eq!(join_frames(&vec![Some(vec![1]), Some(vec![]), None], false), Ok(vec![1]));
}

#[test]
fn writer_cuts_blocks_as_it_is_fed() {
    let data = pattern(1000);
    let mut writer = BGZFWriter::with_block_size(Vec::new(), 6, 300);
    assert_eq!(writer.write(&data[..300]), Ok(300));
    assert!(writer.take_output().is_empty());
    assert_eq!(writer.write(&data[300..301]), Ok(1));
    let first = writer.take_output();
    assert_eq!(decode_block(&first), Ok((data[..300].to_vec(), first.len())));
    assert_eq!(writer.write(&data[301..]), Ok(699));
    let middle = writer.take_output();
    let (frames, complete) = split_frames(&middle);
    assert!(complete);
    assert_eq!(frames.len(), 2);
    assert_eq!(writer.flush(), Ok(()));
    let rest = writer.take_output();
    assert_eq!(decode_block(&rest), Ok((data[900..].to_vec(), rest.len())));
    assert_eq!(writer.flush(), Ok(()));
    assert!(writer.take_output().is_empty());
    let end = writer.close().unwrap();
    assert_eq!(end, FOOTER_BYTES.to_vec());

    let mut whole = first;
    whole.extend_from_slice(&middle);
    whole.extend_from_slice(&rest);
    whole.extend_from_slice(&end);
    assert_eq!(whole, compress(&data, 6, 300).unwrap());
    assert_eq!(decompress(&whole), Ok(data));
}

#[test]
fn writer_appends_to_what_it_is_given() {
    let mut writer = BGZFWriter::new(b"head".to_vec(), 0);
    assert_eq!(writer.write(b"abc"), Ok(3));
    let out = writer.close().unwrap();
    assert_eq!(&out[..4], b"head");
    assert_eq!(decompress(&out[4..]), Ok(b"abc".to_vec()));
}

#[test]
fn incompressible_block_of_full_size_is_refused() {
    let data = noise(65536);
    let mut out = Vec::new();
    assert_eq!(compress_block(&mut out, &data, 0), Err(BGZFError::MalformedBlock));
    assert!(out.is_empty());
    assert_eq!(compress(&data, 0, 65536), Err(BGZFError::MalformedBlock));
    assert!(compress(&data, 0, 65280).is_ok());
}

#[test]
fn virtual_file_offsets() {
    assert_eq!(vfo_pack(0, 0), 0);
    assert_eq!(vfo_pack(1, 0), 65536);
    assert_eq!(vfo_pack(3, 5), 3 * 65536 + 5);
    assert_eq!(vfo_pack(0xffff_ffff_ffff, 0xffff), u64::MAX);
    assert_eq!(vfo_pack(0x1_0000_0000_0001, 0x1_0002), 65536 + 2);
    assert_eq!(vfo_unpack(0), (0, 0));
    assert_eq!(vfo_unpack(3 * 65536 + 5), (3, 5));
    assert_eq!(vfo_unpack(u64::MAX), (0xffff_ffff_ffff, 0xffff));
    let pairs = [(0u64, 0u64), (0, 1), (0, 65535), (1, 0), (1, 7), (2, 0), (1 << 47, 3)];
    for a in pairs {
        assert_eq!(vfo_unpack(vfo_pack(a.0, a.1)), (a.0, a.1 as u16));
        for b in pairs {
            assert_eq!(vfo_pack(a.0, a.1) < vfo_pack(b.0, b.1), a < b);
        }
    }
}

#[test]
fn reader_reads_tells_and_seeks() {
    let mut text = Vec::new();
    for i in 0..1000u32 {
        text.extend_from_slice(format!("line {}\n", i).as_bytes());
    }
    let stream = compress(&text, 6, 1000).unwrap();
    let (frames, _) = split_frames(&stream);

    let mut reader = BGZFReader::new(stream.clone()).unwrap();
    assert_eq!(reader.tell_vfo(), 0);
    let mut line = Vec::new();
    assert_eq!(reader.read_until(b'\n', &mut line), Ok(7));
    assert_eq!(line, b"line 0\n".to_vec());
    assert_eq!(reader.tell_vfo(), 7);

    let mut buf = Vec::new();
    assert_eq!(reader.read(5, &mut buf), Ok(5));
    assert_eq!(buf, b"line ".to_vec());
    assert_eq!(reader.read(0, &mut buf), Ok(0));
    // A read stays within the block that the reader is in.
    assert_eq!(reader.read(5000, &mut buf), Ok(1000 - 12));
    assert_eq!(reader.tell_vfo(), vfo_pack(frames[1].0 as u64, 0));
    assert_eq!(&buf[..], &text[7..1000]);

    // Lines may run over the end of a block.
    line.clear();
    let n = reader.read_until(b'\n', &mut line).unwrap();
    let end = 1000 + n;
    assert_eq!(&line[..], &text[1000..end]);
    assert_eq!(line[n - 1], b'\n');

    assert_eq!(reader.seek_vfo(vfo_pack(frames[3].0 as u64, 17)), Ok(()));
    assert_eq!(reader.tell_vfo(), vfo_pack(frames[3].0 as u64, 17));
    line.clear();
    reader.read_until(b'\n', &mut line).unwrap();
    let from = 3017;
    assert_eq!(&line[..], &text[from..from + line.len()]);

    // All that is left, and then the end.
    let mut rest = Vec::new();
    loop {
        let n = reader.read(4096, &mut rest).unwrap();
        if n == 0 {
            break;
        }
    }
    assert_eq!(&rest[..], &text[from + line.len()..]);
    assert_eq!(reader.read(10, &mut rest), Ok(0));
    line.clear();
    assert_eq!(reader.read_until(b'\n', &mut line), Ok(0));
    assert_eq!(reader.tell_vfo(), vfo_pack(frames[frames.len() - 1].0 as u64, 0));

    // A byte that the block does not have, and a place beyond the stream.
    assert_eq!(reader.seek_vfo(vfo_pack(frames[2].0 as u64, 1000)), Err(BGZFError::InvalidVFO));
    assert_eq!(reader.seek_vfo(vfo_pack(frames[2].0 as u64, 999)), Ok(()));
    assert_eq!(reader.seek_vfo(vfo_pack(stream.len() as u64, 0)), Err(BGZFError::InvalidVFO));
    assert_eq!(
        reader.seek_vfo(vfo_pack(frames[frames.len() - 1].0 as u64, 0)),
        Err(BGZFError::InvalidVFO)
    );
    assert_eq!(reader.seek_vfo(vfo_pack(frames[2].0 as u64 + 1, 0)), Err(BGZFError::MalformedBlock));
    assert_eq!(reader.seek_vfo(0), Ok(()));
    line.clear();
    assert_eq!(reader.read_until(b'\n', &mut line), Ok(7));
}

#[test]
fn reader_reports_a_broken_block_when_it_gets_there() {
    let text = pattern(3000);
    let mut stream = compress(&text, 6, 1000).unwrap();
    let (frames, _) = split_frames(&stream);
    stream[frames[2].0] = 0;

    let mut reader = BGZFReader::new(stream.clone()).unwrap();
    let mut out = Vec::new();
    assert_eq!(reader.read(5000, &mut out), Ok(1000));
    assert_eq!(reader.read(5000, &mut out), Ok(1000));
    assert_eq!(reader.read(5000, &mut out), Err(BGZFError::MalformedBlock));
    assert_eq!(reader.read(5000, &mut out), Err(BGZFError::MalformedBlock));
    assert_eq!(&out[..], &text[..2000]);

    let mut reader = BGZFReader::new(stream.clone()).unwrap();
    let mut line = Vec::new();
    assert_eq!(reader.read_until(250, &mut line), Ok(251));
    line.clear();
    assert_eq!(reader.read_until(255, &mut line), Err(BGZFError::MalformedBlock));
    assert_eq!(&line[..], &text[251..2000]);

    stream[0] = 0;
    assert!(matches!(BGZFReader::new(stream), Err(BGZFError::MalformedBlock)));
    let mut empty = BGZFReader::new(Vec::new()).unwrap();
    assert_eq!(empty.read(10, &mut out), Ok(0));
    assert_eq!(empty.tell_vfo(), 0);
}
