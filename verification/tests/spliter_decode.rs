use ptkgenerator::data_spliter::{cut_at_sync_points, sync_points_fit};
use ptkgenerator::decode_proc::{decode_step, DecodeErrorKind, DecodeEvent, DecodeNext};
use ptkgenerator::post_proc::exec_count_at;
use std::collections::HashMap;

#[test]
fn cut_pieces_and_keep_tail() {
    let mut data: Vec<u8> = (0..10).collect();
    let pieces = cut_at_sync_points(&mut data, &vec![2, 5, 7]);
    assert_eq!(pieces, vec![vec![2, 3, 4], vec![5, 6]]);
    assert_eq!(data, vec![7, 8, 9]);
}

#[test]
fn cut_without_sync_points_keeps_all() {
    let mut data: Vec<u8> = vec![1, 2, 3];
    assert!(cut_at_sync_points(&mut data, &vec![]).is_empty());
    assert_eq!(data, vec![1, 2, 3]);
    let pieces = cut_at_sync_points(&mut data, &vec![0]);
    assert!(pieces.is_empty());
    assert_eq!(data, vec![1, 2, 3]);
}

#[test]
fn decode_steps() {
    let mut m = HashMap::new();
    let (c, n) = decode_step(0, &mut m, DecodeEvent::Instruction(0x401000));
    assert_eq!((c, n), (1, DecodeNext::Continue));
    assert_eq!(exec_count_at(&m, 0x401000), 1);
    assert_eq!(decode_step(c, &mut m, DecodeEvent::Error(DecodeErrorKind::Nosync)), (1, DecodeNext::Resync));
    assert_eq!(decode_step(c, &mut m, DecodeEvent::Error(DecodeErrorKind::BadQuery)), (1, DecodeNext::Resync));
    assert_eq!(decode_step(c, &mut m, DecodeEvent::Error(DecodeErrorKind::Other)), (1, DecodeNext::Stop));
}

#[test]
fn sync_points_checked() {
    assert!(sync_points_fit(&vec![], 0));
    assert!(sync_points_fit(&vec![0, 3, 3, 10], 10));
    assert!(!sync_points_fit(&vec![0, 11], 10));
    assert!(!sync_points_fit(&vec![5, 4], 10));
}

#[test]
fn cut_loses_nothing_after_first_sync_point() {
    let whole: Vec<u8> = (0..20).collect();
    let mut data = whole.clone();
    let offsets = vec![3, 8, 8, 15];
    let pieces = cut_at_sync_points(&mut data, &offsets);
    let mut joined: Vec<u8> = pieces.concat();
    joined.extend_from_slice(&data);
    assert_eq!(joined, whole[3..].to_vec());
}
