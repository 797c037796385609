use fastpt::sync::{find_next_sync, PT_PSB_HI, PT_PSB_LO};
use fastpt::carry::decode_chunk;
use fastpt::{Decoder, Error};

fn psb() -> Vec<u8> {
    let mut v = Vec::new();
    for _ in 0..8 {
        v.push(PT_PSB_HI);
        v.push(PT_PSB_LO);
    }
    v
}

fn ptw(value: u64) -> Vec<u8> {
    let mut v = vec![0x02, 0x12];
    v.extend_from_slice(&value.to_ne_bytes());
    v
}

#[test]
fn marker_then_one_value() {
    let mut buf = psb();
    buf.extend_from_slice(&ptw(1));
    assert_eq!(find_next_sync(&buf), Some(0));

    let mut decoder = Decoder::new(&buf);
    assert_eq!(decoder.sync_offset(), 0);
    assert_eq!(decoder.offset(), 0);
    assert_eq!(decoder.next(), Some(1));
    assert_eq!(decoder.offset(), 26);
    assert_eq!(decoder.sync_offset(), 0);
    assert_eq!(decoder.next(), None);
    assert_eq!(decoder.offset(), 26);
    assert_eq!(decoder.next(), None);
}

#[test]
fn value_is_read_in_the_machines_byte_order() {
    let mut buf = psb();
    buf.extend_from_slice(&[0x02, 0x12, 0, 0, 0, 0, 0, 0, 0, 1]);
    buf.extend_from_slice(&[0x02, 0x12, 1, 2, 3, 4, 5, 6, 7, 8]);
    let mut decoder = Decoder::new(&buf);
    assert_eq!(decoder.next(), Some(u64::from_ne_bytes([0, 0, 0, 0, 0, 0, 0, 1])));
    let second = decoder.next();
    assert!(second == Some(0x0807060504030201) || second == Some(0x0102030405060708));
    assert_eq!(second, Some(u64::from_ne_bytes([1, 2, 3, 4, 5, 6, 7, 8])));
    assert_eq!(decoder.offset(), 36);
}

#[test]
fn padding_is_passed_without_a_value() {
    for len in [0usize, 1, 2, 16, 100] {
        let buf = vec![0u8; len];
        let mut decoder = Decoder::new(&buf);
        assert_eq!(decoder.next(), None);
        assert_eq!(decoder.offset(), len);
        assert_eq!(decoder.sync_offset(), 0);
    }
}

#[test]
fn packets_step_by_their_sizes() {
    let mut buf = psb();
    buf.extend_from_slice(&[0x02, 0x23]); // end of the run
    buf.extend_from_slice(&[0x02, 0x03, 0x40, 0x00]); // ratio
    buf.push(0x00); // padding
    buf.push(0x04); // short record
    buf.extend_from_slice(&ptw(0xdead_beef));
    let mut decoder = Decoder::new(&buf);
    assert!(matches!(decoder.process_next_packet(), Ok(None)));
    assert_eq!(decoder.offset(), 16);
    assert!(matches!(decoder.process_next_packet(), Ok(None)));
    assert_eq!(decoder.offset(), 18);
    assert!(matches!(decoder.process_next_packet(), Ok(None)));
    assert_eq!(decoder.offset(), 22);
    assert!(matches!(decoder.process_next_packet(), Ok(None)));
    assert_eq!(decoder.offset(), 23);
    assert!(matches!(decoder.process_next_packet(), Ok(None)));
    assert_eq!(decoder.offset(), 24);
    assert!(matches!(decoder.process_next_packet(), Ok(Some(0xdead_beef))));
    assert_eq!(decoder.offset(), 34);
    assert!(matches!(decoder.process_next_packet(), Err(Error::EndOfStream)));
    assert_eq!(decoder.offset(), 34);
}

#[test]
fn unknown_opcode_ends_the_iteration() {
    let mut buf = psb();
    buf.extend_from_slice(&ptw(7));
    buf.push(0x19);
    buf.extend_from_slice(&ptw(8));
    let mut decoder = Decoder::new(&buf);
    assert_eq!(decoder.next(), Some(7));
    assert_eq!(decoder.next(), None);
    assert_eq!(decoder.offset(), 26);
    assert!(matches!(decoder.process_next_packet(), Err(Error::UnknownOpcode)));
    assert_eq!(decoder.offset(), 26);
}

#[test]
fn unknown_extended_opcode_ends_the_iteration() {
    let mut buf = psb();
    buf.extend_from_slice(&[0x02, 0x32, 0, 0, 0, 0, 0, 0, 0, 0]);
    let mut decoder = Decoder::new(&buf);
    assert_eq!(decoder.next(), None);
    assert_eq!(decoder.offset(), 16);
    assert!(matches!(decoder.process_next_packet(), Err(Error::UnknownExtOpcode)));
}

#[test]
fn broken_marker_is_bad_sync() {
    let mut buf = psb();
    buf[9] = 0x83;
    buf.extend_from_slice(&ptw(7));
    let mut decoder = Decoder::new(&buf);
    assert!(matches!(decoder.process_next_packet(), Err(Error::BadSync)));
    assert_eq!(decoder.offset(), 0);
    assert_eq!(decoder.next(), None);
}

#[test]
fn packets_cut_off_by_the_end_are_end_of_stream() {
    let marker = psb();
    let value = ptw(3);
    let cases: [&[u8]; 5] = [&[], &[0x02], &marker[..15], &value[..9], &[0x02, 0x03, 0x01]];
    for bytes in cases {
        let mut decoder = Decoder::new(bytes);
        assert!(matches!(decoder.process_next_packet(), Err(Error::EndOfStream)));
        assert_eq!(decoder.offset(), 0);
    }
}

#[test]
fn psb_checks_seven_units_at_the_cursor() {
    let buf = psb();
    let mut decoder = Decoder::new(&buf);
    decoder.set_offset(2);
    assert!(matches!(decoder.psb(), Ok(())));
    assert_eq!(decoder.offset(), 16);

    decoder.set_offset(4);
    assert!(matches!(decoder.psb(), Err(Error::EndOfStream)));
    assert_eq!(decoder.offset(), 4);

    let mut broken = psb();
    broken[15] = 0x00;
    let mut decoder = Decoder::new(&broken);
    decoder.set_offset(2);
    assert!(matches!(decoder.psb(), Err(Error::BadSync)));
    assert_eq!(decoder.offset(), 2);
}

#[test]
fn set_offset_moves_the_cursor_anywhere() {
    let mut buf = psb();
    buf.extend_from_slice(&ptw(5));
    buf.extend_from_slice(&ptw(6));
    let mut decoder = Decoder::new(&buf);
    decoder.set_offset(26);
    assert_eq!(decoder.offset(), 26);
    assert_eq!(decoder.next(), Some(6));
    decoder.set_offset(1000);
    assert_eq!(decoder.next(), None);
    assert_eq!(decoder.offset(), 1000);
}

#[test]
fn sync_offset_follows_the_markers() {
    let mut buf = psb();
    buf.extend_from_slice(&ptw(1));
    buf.extend_from_slice(&psb());
    buf.extend_from_slice(&[0x02, 0x23]);
    buf.extend_from_slice(&ptw(2));
    buf.extend_from_slice(&[0x02, 0x12, 0x00]);
    let mut decoder = Decoder::new(&buf);
    assert_eq!(decoder.next(), Some(1));
    assert_eq!(decoder.sync_offset(), 0);
    assert_eq!(decoder.next(), Some(2));
    assert_eq!(decoder.sync_offset(), 26);
    assert_eq!(decoder.next(), None);
    assert_eq!(decoder.sync_offset(), 26);
    assert_eq!(decoder.offset(), 54);
}

#[test]
fn sync_forward_finds_the_first_marker() {
    let mut buf = vec![0x47u8; 13];
    buf.extend_from_slice(&psb());
    buf.extend_from_slice(&ptw(9));
    let mut decoder = Decoder::new(&buf);
    assert_eq!(find_next_sync(&buf), Some(13));
    decoder.sync_forward();
    assert_eq!(decoder.offset(), 13);
    assert_eq!(decoder.sync_offset(), 13);
    assert_eq!(decoder.next(), Some(9));
    decoder.sync_forward();
    assert_eq!(decoder.offset(), 13);
}

fn values_of(buf: &[u8]) -> (Vec<u64>, usize, usize) {
    let mut decoder = Decoder::new(buf);
    let mut values = Vec::new();
    while let Some(v) = decoder.next() {
        values.push(v);
    }
    (values, decoder.offset(), decoder.sync_offset())
}

#[test]
fn chunks_with_carry_over_decode_like_one_pass() {
    let mut stream = Vec::new();
    let mut expected = Vec::new();
    for round in 0..40u64 {
        stream.extend_from_slice(&psb());
        stream.extend_from_slice(&[0x02, 0x23]);
        for n in 0..(round % 5) {
            stream.extend_from_slice(&ptw(round * 100 + n));
            expected.push(round * 100 + n);
            stream.push(0x00);
        }
    }
    let (whole, consumed, _) = values_of(&stream);
    assert_eq!(whole, expected);
    assert_eq!(consumed, stream.len());

    for chunk in [61usize, 64, 100, 257] {
        let mut collected = Vec::new();
        let mut pending: Vec<u8> = Vec::new();
        let mut base = 0;
        let mut fed = 0;
        while fed < stream.len() {
            let upto = (fed + chunk).min(stream.len());
            pending.extend_from_slice(&stream[fed..upto]);
            fed = upto;
            let last = fed == stream.len();
            let mut decoder = Decoder::new(&pending);
            let mut seen = Vec::new();
            while let Some(v) = decoder.next() {
                seen.push((decoder.sync_offset(), v));
            }
            // what lies behind the marker entered last is decoded again
            // with the next chunk
            let carry = if last { pending.len() } else { decoder.sync_offset() };
            collected.extend(seen.iter().filter(|(sync, _)| last || *sync < carry).map(|p| p.1));
            if last {
                assert_eq!(base + decoder.offset(), consumed);
            }
            base += carry;
            pending = pending[carry..].to_vec();
        }
        assert_eq!(collected, expected);
    }
}

#[test]
fn collect_values_yields_every_value_in_order() {
    let mut buf = psb();
    buf.extend_from_slice(&ptw(10));
    buf.push(0x00);
    buf.extend_from_slice(&ptw(20));
    buf.extend_from_slice(&psb());
    buf.extend_from_slice(&ptw(30));
    buf.push(0x19);
    buf.extend_from_slice(&ptw(40));
    let mut decoder = Decoder::new(&buf);
    assert_eq!(decoder.collect_values(), vec![10, 20, 30]);
    assert_eq!(decoder.offset(), 63);
    assert_eq!(decoder.sync_offset(), 37);
    assert_eq!(decoder.collect_values(), Vec::<u64>::new());
    assert_eq!(values_of(&buf), (vec![10, 20, 30], 63, 37));
}

#[test]
fn decode_chunk_keeps_what_lies_before_the_carry_point() {
    let mut buf = psb();
    buf.extend_from_slice(&ptw(10));
    buf.push(0x00);
    buf.extend_from_slice(&ptw(20));
    buf.extend_from_slice(&psb());
    buf.extend_from_slice(&ptw(30));
    buf.extend_from_slice(&[0x02, 0x12, 0x01, 0x02]);
    assert_eq!(decode_chunk(&buf), (vec![10, 20], 37));
    assert_eq!(decode_chunk(&buf[37..]), (vec![], 0));
    assert_eq!(decode_chunk(&buf[..30]), (vec![], 0));
    assert_eq!(decode_chunk(&[]), (vec![], 0));
}

#[test]
fn decode_chunk_passes_join_to_one_pass() {
    let mut stream = Vec::new();
    let mut expected = Vec::new();
    for round in 0..60u64 {
        stream.extend_from_slice(&psb());
        stream.extend_from_slice(&[0x02, 0x23, 0x02, 0x03, 0x11, 0x00]);
        for n in 0..(round % 4) {
            stream.extend_from_slice(&ptw(round * 1000 + n));
            expected.push(round * 1000 + n);
            stream.push(0x06);
        }
    }
    let (whole, consumed, _) = values_of(&stream);
    assert_eq!(whole, expected);
    for chunk in [50usize, 64, 129, 1000, 5000] {
        let mut collected = Vec::new();
        let mut pending: Vec<u8> = Vec::new();
        let mut base = 0;
        for part in stream.chunks(chunk) {
            pending.extend_from_slice(part);
            let (values, carry) = decode_chunk(&pending);
            collected.extend(values);
            base += carry;
            pending = pending[carry..].to_vec();
        }
        let mut last = Decoder::new(&pending);
        collected.extend(last.collect_values());
        assert_eq!(collected, expected);
        assert_eq!(base + last.offset(), consumed);
    }
}
