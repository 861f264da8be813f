//! Frames, the payload budget that they are charged to, and the limits on bodies.

use latte_lens::framing::{
    encode_frame, release_all, FrameDecoder, MAX_BODY_BYTES, MAX_HEADER_BYTES,
};
use latte_lens::json::{json_preflight, normalize_jsonc, MAX_JSON_DEPTH, MAX_JSON_NUMBER_BYTES};
use latte_lens::payload::{
    GlobalPayloadBudget, PayloadBudget, PayloadError, SESSION_PAYLOAD_BUDGET,
};

fn budget() -> (PayloadBudget, GlobalPayloadBudget) {
    (PayloadBudget::session(), GlobalPayloadBudget::default())
}

#[test]
fn framing_accepts_split_and_multiple_frames() {
    let (mut budget, mut global) = budget();
    let mut decoder = FrameDecoder::default();
    assert!(decoder
        .push(b"Content-Len", &mut budget, &mut global)
        .unwrap()
        .is_empty());
    let frames = decoder
        .push(
            b"gth: 2\r\nContent-Type: application/vscode-jsonrpc; charset=UTF-8\r\n\r\n{}Content-Length: 2\r\n\r\n[]",
            &mut budget,
            &mut global,
        )
        .unwrap();
    assert_eq!(frames.len(), 2);
    assert_eq!(frames[0].as_slice(), b"{}");
    assert_eq!(frames[1].as_slice(), b"[]");
    decoder.finish().unwrap();
}

#[test]
fn framing_rejects_duplicate_length_bad_charset_and_limits() {
    let (mut budget, mut global) = budget();
    for header in [
        "X: 1\r\n\r\n{}",
        "Content-Length: 2\r\nContent-Length: 2\r\n\r\n{}",
        "Content-Length: -1\r\n\r\n{}",
        "Content-Length: 0\r\n\r\n",
        "Content-Length: 4194305\r\n\r\n",
        "Content-Length: 2\r\nContent-Type: text/plain\r\n\r\n{}",
        "Content-Length: 2\r\nContent-Type: application/vscode-jsonrpc; boundary=x\r\n\r\n{}",
        "Content-Length: 2\r\nContent-Type: application/vscode-jsonrpc; charset=latin1\r\n\r\n{}",
        "Content-Length: 2\r\nContent-Type: application/vscode-jsonrpc; charset=utf8; charset=utf8\r\n\r\n{}",
    ] {
        assert!(FrameDecoder::default()
            .push(header.as_bytes(), &mut budget, &mut global)
            .is_err());
    }
    let huge = format!("X: {}", "x".repeat(MAX_HEADER_BYTES));
    assert!(FrameDecoder::default()
        .push(huge.as_bytes(), &mut budget, &mut global)
        .is_err());
    assert!(FrameDecoder::default()
        .push(
            &[0xff, b':', b'1', b'\r', b'\n', b'\r', b'\n'],
            &mut budget,
            &mut global
        )
        .is_err());
    let mut partial = FrameDecoder::default();
    partial
        .push(b"Content-Length: 2\r\n\r\n{", &mut budget, &mut global)
        .unwrap();
    assert!(partial.finish().is_err());
    assert!(encode_frame(b"", &mut budget, &mut global).is_err());
    assert!(encode_frame(&vec![b'x'; MAX_BODY_BYTES + 1], &mut budget, &mut global).is_err());
}

#[test]
fn payload_admission_is_atomic_and_releases() {
    let mut global = GlobalPayloadBudget::default();
    let mut budget = PayloadBudget::session();
    let permit = budget
        .reserve(&mut global, SESSION_PAYLOAD_BUDGET)
        .unwrap();
    assert!(budget.reserve(&mut global, 1).is_err());
    assert_eq!(budget.session.used(), SESSION_PAYLOAD_BUDGET);
    budget.release(&mut global, permit);
    assert_eq!(budget.session.used(), 0);
    budget.reserve(&mut global, 1).unwrap();
}

#[test]
fn global_admission_rejects_the_seventh_full_session_and_recovers() {
    let mut global = GlobalPayloadBudget::default();
    let mut budgets: Vec<PayloadBudget> = (0..7).map(|_| PayloadBudget::session()).collect();
    let mut permits = Vec::new();
    for budget in &mut budgets[..6] {
        permits.push(budget.reserve(&mut global, SESSION_PAYLOAD_BUDGET).unwrap());
    }
    assert!(budgets[6].reserve(&mut global, 1).is_err());
    assert_eq!(budgets[6].session.used(), 0);
    for (budget, permit) in budgets.iter_mut().zip(permits) {
        budget.release(&mut global, permit);
    }
    assert!(budgets[6].reserve(&mut global, 1).is_ok());
}

#[test]
fn framing_holds_a_permit_while_building_a_near_four_mib_body() {
    let (mut budget, mut global) = budget();
    let body_len = MAX_BODY_BYTES - 1;
    let header = format!("Content-Length: {body_len}\r\n\r\n");
    let mut decoder = FrameDecoder::default();
    assert!(decoder
        .push(header.as_bytes(), &mut budget, &mut global)
        .unwrap()
        .is_empty());
    assert_eq!(budget.session.used(), body_len);
    let chunk = vec![b' '; 64 * 1024];
    let mut remaining = body_len;
    let mut completed = Vec::new();
    while remaining > 0 {
        let take = remaining.min(chunk.len());
        completed.extend(
            decoder
                .push(&chunk[..take], &mut budget, &mut global)
                .unwrap(),
        );
        remaining -= take;
    }
    assert_eq!(completed.len(), 1);
    assert_eq!(completed[0].len(), body_len);
    assert_eq!(budget.session.used(), body_len);
    release_all(completed, &mut budget, &mut global);
    assert_eq!(budget.session.used(), 0);
}

#[test]
fn a_refused_reservation_says_why() {
    let (mut budget, mut global) = budget();
    budget.reserve(&mut global, 1).unwrap();
    assert_eq!(
        budget.reserve(&mut global, usize::MAX).unwrap_err(),
        PayloadError::Overflow
    );
    let exhausted = budget
        .reserve(&mut global, SESSION_PAYLOAD_BUDGET)
        .unwrap_err();
    assert_eq!(exhausted, PayloadError::Exhausted);
    assert_eq!(exhausted.message(), "navigation payload budget exhausted");
}

#[test]
fn an_encoded_body_decodes_to_itself() {
    let (mut budget, mut global) = budget();
    let frame = encode_frame(b"{\"id\":1}", &mut budget, &mut global).unwrap();
    assert_eq!(frame.as_slice(), b"Content-Length: 8\r\n\r\n{\"id\":1}");
    let mut decoder = FrameDecoder::default();
    let mut bodies = Vec::new();
    for byte in frame.as_slice() {
        bodies.extend(
            decoder
                .push(&[*byte], &mut budget, &mut global)
                .unwrap(),
        );
    }
    assert_eq!(bodies.len(), 1);
    assert_eq!(bodies[0].as_slice(), b"{\"id\":1}");
    decoder.finish().unwrap();
}

#[test]
fn preflight_rejects_long_numbers_and_depth() {
    let number = format!("{{\"n\":{}}}", "1".repeat(MAX_JSON_NUMBER_BYTES + 1));
    assert!(json_preflight(number.as_bytes()).is_err());
    let nested = format!(
        "{}0{}",
        "[".repeat(MAX_JSON_DEPTH + 1),
        "]".repeat(MAX_JSON_DEPTH + 1)
    );
    assert!(json_preflight(nested.as_bytes()).is_err());
    assert!(json_preflight(br#"{"text":"123456789012345678901234567890"}"#).is_ok());
}

#[test]
fn comments_and_trailing_commas_become_spaces() {
    assert_eq!(
        normalize_jsonc(b"{\"a\":[1,],// x\n}").unwrap(),
        b"{\"a\":[1 ]     \n}"
    );
    assert_eq!(
        normalize_jsonc(b"\"//,]\"").unwrap(),
        b"\"//,]\"".to_vec()
    );
    assert!(normalize_jsonc(b"{} /* unterminated").is_err());
}
