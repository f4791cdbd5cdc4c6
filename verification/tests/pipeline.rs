use bgzip::parallel::{decode_frame, split_frames};
use bgzip::pipeline::{decompress_pipelined, ReorderBuffer, Taken};
use bgzip::read::decompress;
use bgzip::write::compress;
use bgzip::BGZFError;

fn ramp(len: usize) -> Vec<u8> {
    (0..len).map(|i| ((i * 7 + i / 300) % 253) as u8).collect()
}

#[test]
fn data_comes_out_in_ticket_order() {
    let mut buffer = ReorderBuffer::new(4);
    assert_eq!(buffer.take(), Taken::Idle);
    assert_eq!(buffer.submit(), Some(0));
    assert_eq!(buffer.submit(), Some(1));
    assert_eq!(buffer.submit(), Some(2));
    assert_eq!(buffer.outstanding(), 3);
    assert_eq!(buffer.take(), Taken::Pending);

    buffer.complete(2, Ok(vec![3, 3, 3]));
    assert_eq!(buffer.take(), Taken::Pending);
    buffer.complete(1, Ok(vec![2, 2]));
    assert_eq!(buffer.take(), Taken::Pending);
    buffer.complete(0, Ok(vec![1]));

    assert_eq!(buffer.take(), Taken::Payload(vec![1]));
    assert_eq!(buffer.take(), Taken::Payload(vec![2, 2]));
    assert_eq!(buffer.outstanding(), 1);
    assert_eq!(buffer.submit(), Some(3));
    assert_eq!(buffer.take(), Taken::Payload(vec![3, 3, 3]));
    assert_eq!(buffer.take(), Taken::Pending);
    buffer.complete(3, Ok(vec![]));
    assert_eq!(buffer.take(), Taken::Payload(vec![]));
    assert_eq!(buffer.take(), Taken::Idle);
    assert_eq!(buffer.outstanding(), 0);
}

#[test]
fn buffer_takes_no_more_than_its_limit() {
    let mut buffer = ReorderBuffer::new(2);
    assert_eq!(buffer.submit(), Some(0));
    assert_eq!(buffer.submit(), Some(1));
    assert_eq!(buffer.submit(), None);
    assert_eq!(buffer.outstanding(), 2);
    buffer.complete(1, Ok(vec![9]));
    assert_eq!(buffer.submit(), None);
    buffer.complete(0, Ok(vec![8]));
    assert_eq!(buffer.submit(), None);
    assert_eq!(buffer.take(), Taken::Payload(vec![8]));
    assert_eq!(buffer.submit(), Some(2));
    assert_eq!(buffer.submit(), None);

    let mut single = ReorderBuffer::new(1);
    assert_eq!(single.submit(), Some(0));
    assert_eq!(single.submit(), None);
}

#[test]
fn what_comes_for_no_ticket_is_dropped() {
    let mut buffer = ReorderBuffer::new(3);
    buffer.complete(0, Ok(vec![1]));
    assert_eq!(buffer.take(), Taken::Idle);
    assert_eq!(buffer.submit(), Some(0));
    buffer.complete(1, Ok(vec![1]));
    assert_eq!(buffer.take(), Taken::Pending);
    buffer.complete(0, Ok(vec![5]));
    assert_eq!(buffer.take(), Taken::Payload(vec![5]));
    buffer.complete(0, Ok(vec![6]));
    assert_eq!(buffer.take(), Taken::Idle);
    assert_eq!(buffer.submit(), Some(1));
    buffer.complete(1, Ok(vec![7]));
    buffer.complete(1, Ok(vec![8]));
    assert_eq!(buffer.take(), Taken::Payload(vec![8]));
}

#[test]
fn broken_frame_poisons_the_buffer_when_it_comes_to_the_front() {
    let mut buffer = ReorderBuffer::new(4);
    assert_eq!(buffer.submit(), Some(0));
    assert_eq!(buffer.submit(), Some(1));
    assert_eq!(buffer.submit(), Some(2));
    buffer.complete(1, Err(BGZFError::MalformedBlock));
    assert_eq!(buffer.take(), Taken::Pending);
    buffer.complete(0, Ok(vec![4, 2]));
    buffer.complete(2, Ok(vec![7]));
    assert_eq!(buffer.take(), Taken::Payload(vec![4, 2]));
    assert_eq!(buffer.take(), Taken::Failed(BGZFError::MalformedBlock));
    assert_eq!(buffer.outstanding(), 0);
    assert_eq!(buffer.take(), Taken::Failed(BGZFError::MalformedBlock));
    assert_eq!(buffer.submit(), None);
    buffer.complete(2, Ok(vec![7]));
    assert_eq!(buffer.take(), Taken::Failed(BGZFError::MalformedBlock));

    let mut other = ReorderBuffer::new(1);
    assert_eq!(other.submit(), Some(0));
    other.complete(0, Err(BGZFError::Io));
    assert_eq!(other.take(), Taken::Failed(BGZFError::Io));
    assert_eq!(other.take(), Taken::Failed(BGZFError::Io));
}

#[test]
fn pipeline_gives_what_the_stream_gives() {
    let data = ramp(120_000);
    let stream = compress(&data, 6, 9_000).unwrap();
    for limit in [1usize, 2, 3, 8, 64] {
        assert_eq!(decompress_pipelined(&stream, limit), Ok(data.clone()));
    }
    assert_eq!(decompress_pipelined(&stream, 5), decompress(&stream));

    let empty = compress(&[], 6, 9_000).unwrap();
    assert_eq!(decompress_pipelined(&empty, 3), Ok(Vec::new()));
    assert_eq!(decompress_pipelined(&[], 3), Ok(Vec::new()));

    let (frames, _) = split_frames(&stream);
    let mut broken = stream.clone();
    broken[frames[4].0 + 25] ^= 0x3c;
    for limit in [1usize, 4, 64] {
        assert_eq!(decompress_pipelined(&broken, limit), Err(BGZFError::MalformedBlock));
        assert_eq!(decompress_pipelined(&broken, limit), decompress(&broken));
    }

    let cut = &stream[..frames[2].1 + 5];
    assert_eq!(decompress_pipelined(cut, 2), Err(BGZFError::MalformedBlock));

    let mut twice = stream.clone();
    twice.extend_from_slice(&[0xde, 0xad]);
    assert_eq!(decompress_pipelined(&twice, 2), decompress(&twice));
    assert_eq!(decompress_pipelined(&twice, 2), Ok(data.clone()));
}

#[test]
fn workers_that_finish_out_of_order_give_the_stream() {
    let data = ramp(50_000);
    let stream = compress(&data, 1, 4_000).unwrap();
    let (frames, complete) = split_frames(&stream);
    assert!(complete);
    let mut buffer = ReorderBuffer::new(3);
    let mut out: Vec<u8> = Vec::new();
    let mut next = 0;
    let mut ended = false;
    while !ended {
        let mut batch = Vec::new();
        while next < frames.len() {
            match buffer.submit() {
                Some(ticket) => {
                    assert_eq!(ticket, next);
                    batch.push(ticket);
                    next += 1;
                }
                None => break,
            }
        }
        assert!(buffer.outstanding() <= 3);
        for &ticket in batch.iter().rev() {
            let (from, to) = frames[ticket];
            let result = decode_frame(&stream[from..to]).ok_or(BGZFError::MalformedBlock);
            buffer.complete(ticket, result);
        }
        loop {
            match buffer.take() {
                Taken::Payload(payload) => {
                    if payload.is_empty() {
                        ended = true;
                        break;
                    }
                    out.extend_from_slice(&payload);
                }
                Taken::Idle => {
                    ended = next == frames.len();
                    break;
                }
                other => panic!("{:?}", other),
            }
        }
    }
    assert_eq!(out, data);
}
