//! The marshaling stage on constructed outcomes: capacity refusal with the
//! buffer untouched, sentinel mapping, and the success byte count.

use marshal_inplace::STATUS_FAULT;
use marshal_inplace::STATUS_NOT_APPLICABLE;
use marshal_inplace::STATUS_TOO_LARGE;
use marshal_inplace::marshal::marshal_result;
use marshal_inplace::records::ExtractError;
use marshal_inplace::records::ExtractionResult;
use marshal_inplace::records::LimitsRecord;

fn limits_result() -> Result<ExtractionResult, ExtractError> {
    Ok(ExtractionResult::Limits(LimitsRecord { current: 5, maximum: 100, reset_cost: 10 }))
}

#[test]
fn result_too_large_leaves_buffer_untouched() {
    // The limits encoding takes 13 bytes; a 4-byte buffer cannot hold it.
    let mut buf: Vec<u8> = vec![9, 9, 9, 9];
    let status = marshal_result(&limits_result(), &mut buf);
    assert_eq!(status, STATUS_TOO_LARGE);
    assert_eq!(buf, vec![9, 9, 9, 9]);
}

#[test]
fn result_fits_exactly() {
    let mut buf: Vec<u8> = vec![0; 13];
    let status = marshal_result(&limits_result(), &mut buf);
    assert_eq!(status, 13);
    assert_eq!(buf, vec![2, 5, 0, 0, 0, 100, 0, 0, 0, 10, 0, 0, 0]);
}

#[test]
fn result_fits_with_room_to_spare() {
    let mut buf: Vec<u8> = vec![7; 16];
    let status = marshal_result(&limits_result(), &mut buf);
    assert_eq!(status, 13);
    assert_eq!(&buf[..13], &[2, 5, 0, 0, 0, 100, 0, 0, 0, 10, 0, 0, 0]);
    // Bytes past the encoding are left as they were.
    assert_eq!(&buf[13..], &[7, 7, 7]);
}

#[test]
fn negative_i32_uses_two_s_complement() {
    let res: Result<ExtractionResult, ExtractError> = Ok(ExtractionResult::Limits(LimitsRecord {
        current: -1,
        maximum: 0,
        reset_cost: 0,
    }));
    let mut buf: Vec<u8> = vec![0; 13];
    assert_eq!(marshal_result(&res, &mut buf), 13);
    assert_eq!(&buf[..5], &[2, 0xFF, 0xFF, 0xFF, 0xFF]);
}

#[test]
fn not_applicable_maps_to_its_sentinel() {
    let res: Result<ExtractionResult, ExtractError> = Err(ExtractError::NotApplicable);
    let mut buf: Vec<u8> = vec![1, 2, 3];
    assert_eq!(marshal_result(&res, &mut buf), STATUS_NOT_APPLICABLE);
    assert_eq!(buf, vec![1, 2, 3]);
}

#[test]
fn both_hard_faults_map_to_the_fault_sentinel() {
    let mut buf: Vec<u8> = vec![1, 2, 3];
    let auth: Result<ExtractionResult, ExtractError> = Err(ExtractError::AuthRequired);
    let malformed: Result<ExtractionResult, ExtractError> = Err(ExtractError::Malformed);
    assert_eq!(marshal_result(&auth, &mut buf), STATUS_FAULT);
    assert_eq!(marshal_result(&malformed, &mut buf), STATUS_FAULT);
    assert_eq!(buf, vec![1, 2, 3]);
}

#[test]
fn sentinels_are_distinct_and_negative() {
    assert!(STATUS_NOT_APPLICABLE < 0 && STATUS_FAULT < 0 && STATUS_TOO_LARGE < 0);
    assert_ne!(STATUS_NOT_APPLICABLE, STATUS_FAULT);
    assert_ne!(STATUS_NOT_APPLICABLE, STATUS_TOO_LARGE);
    assert_ne!(STATUS_FAULT, STATUS_TOO_LARGE);
}

#[test]
fn empty_torrent_list_still_encodes() {
    let res: Result<ExtractionResult, ExtractError> = Ok(ExtractionResult::Torrents(Vec::new()));
    let mut buf: Vec<u8> = vec![0; 8];
    assert_eq!(marshal_result(&res, &mut buf), 5);
    assert_eq!(&buf[..5], &[3, 0, 0, 0, 0]);
}
