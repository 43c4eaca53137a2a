use motherboard::kernel::ids::FileId;
use motherboard::kernel::reply_tokens::{PendingReply, ReplyTokens};
use motherboard::protocol::{ReplyToken, RequestId, TransportError};

#[test]
fn tokens_start_at_one_and_are_fresh() {
    let mut tokens = ReplyTokens::default();
    assert_eq!(tokens.create(FileId(1), FileId(2), RequestId(10)), ReplyToken(1));
    assert_eq!(tokens.create(FileId(1), FileId(2), RequestId(11)), ReplyToken(2));
    assert_eq!(tokens.len(), 2);
    assert_eq!(
        tokens.consume(ReplyToken(1), FileId(2)),
        Ok(PendingReply { client_file_id: FileId(1), service_file_id: FileId(2), request_id: RequestId(10) })
    );
    assert_eq!(tokens.create(FileId(3), FileId(2), RequestId(12)), ReplyToken(3));
}

#[test]
fn a_token_is_redeemed_only_by_its_service() {
    let mut tokens = ReplyTokens::new();
    let token = tokens.create(FileId(1), FileId(2), RequestId(10));
    assert_eq!(tokens.consume(token, FileId(3)), Err(TransportError::InvalidReplyToken));
    assert_eq!(tokens.len(), 1);
    assert!(tokens.consume(token, FileId(2)).is_ok());
    assert_eq!(tokens.consume(token, FileId(2)), Err(TransportError::InvalidReplyToken));
}

#[test]
fn tokens_of_a_closed_connection_go() {
    let mut tokens = ReplyTokens::new();
    let a = tokens.create(FileId(1), FileId(2), RequestId(1));
    let b = tokens.create(FileId(3), FileId(4), RequestId(2));
    let c = tokens.create(FileId(5), FileId(1), RequestId(3));
    tokens.remove_for_file(FileId(1));
    assert_eq!(tokens.len(), 1);
    assert_eq!(tokens.consume(a, FileId(2)), Err(TransportError::InvalidReplyToken));
    assert_eq!(tokens.consume(c, FileId(1)), Err(TransportError::InvalidReplyToken));
    assert!(tokens.consume(b, FileId(4)).is_ok());
}
