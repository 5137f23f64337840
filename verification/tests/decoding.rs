use shredwatch::bytes::{read_u16, read_u32, read_u64};
use shredwatch::entries::{decode_entry_batch, DecodedBlock};

fn short(n: u16) -> Vec<u8> {
    let mut rest = n;
    let mut out = vec![];
    loop {
        let low = (rest & 0x7f) as u8;
        rest >>= 7;
        if rest == 0 {
            out.push(low);
            return out;
        }
        out.push(low | 0x80);
    }
}

fn message_tail(keys: u16, instructions: u16) -> Vec<u8> {
    let mut out = vec![0u8; 2];
    out.extend(short(keys));
    out.extend(vec![7u8; 32 * keys as usize]);
    out.extend(vec![9u8; 32]);
    out.extend(short(instructions));
    for _ in 0..instructions {
        out.push(1);
        out.extend(short(2));
        out.extend([0, 1]);
        out.extend(short(3));
        out.extend([5, 5, 5]);
    }
    out
}

fn legacy(signatures: u16, keys: u16, instructions: u16) -> Vec<u8> {
    let mut out = short(signatures);
    out.extend(vec![1u8; 64 * signatures as usize]);
    out.push(signatures as u8);
    out.extend(message_tail(keys, instructions));
    out
}

fn versioned(signatures: u16, lookups: u16) -> Vec<u8> {
    let mut out = short(signatures);
    out.extend(vec![1u8; 64 * signatures as usize]);
    out.push(0x80);
    out.push(signatures as u8);
    out.extend(message_tail(2, 1));
    out.extend(short(lookups));
    for _ in 0..lookups {
        out.extend(vec![3u8; 32]);
        out.extend(short(1));
        out.push(0);
        out.extend(short(0));
    }
    out
}

fn batch(entries: &[Vec<Vec<u8>>]) -> Vec<u8> {
    let mut out = (entries.len() as u64).to_le_bytes().to_vec();
    for transactions in entries {
        out.extend(12u64.to_le_bytes());
        out.extend([4u8; 32]);
        out.extend((transactions.len() as u64).to_le_bytes());
        for transaction in transactions {
            out.extend(transaction);
        }
    }
    out
}

fn counted(entries: u64, transactions: u64) -> Option<DecodedBlock> {
    Some(DecodedBlock { entries, transactions })
}

#[test]
fn little_endian_fields() {
    let bytes = [1, 2, 3, 4, 5, 6, 7, 8, 9];
    assert_eq!(read_u16(&bytes, 1), Some(0x0302));
    assert_eq!(read_u32(&bytes, 2), Some(0x0605_0403));
    assert_eq!(read_u64(&bytes, 1), Some(0x0908_0706_0504_0302));
    assert_eq!(read_u64(&bytes, 2), None);
    assert_eq!(read_u16(&bytes, 8), None);
    assert_eq!(read_u32(&bytes, usize::MAX), None);
}

#[test]
fn batches_of_entries() {
    assert_eq!(decode_entry_batch(&batch(&[])), counted(0, 0));
    assert_eq!(decode_entry_batch(&batch(&[vec![]])), counted(1, 0));
    assert_eq!(
        decode_entry_batch(&batch(&[vec![legacy(1, 3, 2), versioned(2, 1)], vec![], vec![legacy(0, 0, 0)]])),
        counted(3, 3)
    );
}

#[test]
fn long_vectors_use_several_length_bytes() {
    assert_eq!(decode_entry_batch(&batch(&[vec![legacy(1, 300, 200)]])), counted(1, 1));
}

#[test]
fn a_batch_ends_with_its_last_entry() {
    let mut bytes = batch(&[vec![legacy(1, 1, 1)]]);
    bytes.push(0);
    assert_eq!(decode_entry_batch(&bytes), None);
    bytes.pop();
    bytes.pop();
    assert_eq!(decode_entry_batch(&bytes), None);
}

#[test]
fn more_entries_than_bytes_are_refused() {
    let mut bytes = batch(&[vec![]]);
    bytes[0] = 2;
    assert_eq!(decode_entry_batch(&bytes), None);
    bytes[..8].copy_from_slice(&u64::MAX.to_le_bytes());
    assert_eq!(decode_entry_batch(&bytes), None);
    assert_eq!(decode_entry_batch(&[0; 7]), None);
}

#[test]
fn signatures_agree_with_the_message() {
    let mut wrong = legacy(1, 1, 0);
    wrong[65] = 2;
    assert_eq!(decode_entry_batch(&batch(&[vec![wrong]])), None);
}

#[test]
fn only_version_zero_is_known() {
    let mut wrong = versioned(1, 0);
    wrong[65] = 0x81;
    assert_eq!(decode_entry_batch(&batch(&[vec![wrong]])), None);
}

#[test]
fn overlong_lengths_are_refused() {
    // two bytes for the number zero
    let mut wrong = vec![0x80, 0x00, 0];
    wrong.extend(message_tail(0, 0));
    assert_eq!(decode_entry_batch(&batch(&[vec![wrong]])), None);
    // a third byte above 3
    let mut wrong = vec![0xff, 0xff, 0x04, 0];
    wrong.extend(message_tail(0, 0));
    assert_eq!(decode_entry_batch(&batch(&[vec![wrong]])), None);
}
