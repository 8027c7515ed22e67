use xmodem::device::ScriptExhausted;
use xmodem::ACK;
use xmodem::CANCEL;
use xmodem::CHECKSUM_REQUEST;
use xmodem::END_OF_TRANSMISSION;
use xmodem::Error;
use xmodem::NAK;
use xmodem::ScriptedTransport;
use xmodem::Sender;
use xmodem::START_OF_HEADER;

fn frame(id: u8, block: &[u8]) -> Vec<u8> {
    assert_eq!(block.len(), 128);
    let mut f = vec![START_OF_HEADER, id, !id];
    f.extend_from_slice(block);
    let c = xmodem::checksum(block);
    f.push((c >> 8) as u8);
    f.push((c & 0xFF) as u8);
    f
}

fn run_send(script: Vec<u8>, data: &[u8]) -> (Result<(), Error<ScriptExhausted>>, Vec<u8>) {
    let transport = ScriptedTransport::new(script);
    let mut sender = Sender::new(transport);
    let result = sender.send(data);
    let written = sender.device().written().clone();
    (result, written)
}

#[test]
fn three_blocks_with_padding() {
    // 300 bytes: chunks of 128, 128 and 44; the short chunk is padded with
    // what the previous block left in the buffer
    let data: Vec<u8> = (0..300).map(|i| i as u8).collect();
    let script = vec![CHECKSUM_REQUEST, ACK, ACK, ACK, ACK];
    let (result, written) = run_send(script, &data);
    assert!(result.is_ok());

    let block1 = &data[0..128];
    let block2 = &data[128..256];
    let mut block3 = data[256..300].to_vec();
    block3.extend_from_slice(&block2[44..128]);

    let mut expected = frame(1, block1);
    expected.extend_from_slice(&frame(2, block2));
    expected.extend_from_slice(&frame(3, &block3));
    expected.push(END_OF_TRANSMISSION);
    assert_eq!(written, expected);
}

#[test]
fn empty_input_sends_no_block() {
    // an empty buffer yields no chunk: the session is just the handshake and
    // the end-of-transmission exchange
    let script = vec![CHECKSUM_REQUEST, ACK];
    let (result, written) = run_send(script, &[]);
    assert!(result.is_ok());
    assert_eq!(written, vec![END_OF_TRANSMISSION]);
}

#[test]
fn nak_retransmits_until_ack() {
    // two naks then an ack: the identical frame goes out three times and the
    // sequence number advances only after the ack
    let script = vec![CHECKSUM_REQUEST, NAK, NAK, ACK, ACK];
    let (result, written) = run_send(script, &[0xAB]);
    assert!(result.is_ok());

    let mut block = [0u8; 128];
    block[0] = 0xAB;
    let f = frame(1, &block);
    let mut expected = f.clone();
    expected.extend_from_slice(&f);
    expected.extend_from_slice(&f);
    expected.push(END_OF_TRANSMISSION);
    assert_eq!(written, expected);
}

#[test]
fn cancel_stops_the_transfer() {
    // a cancel reply aborts at once: the frame just written is the last byte
    // on the wire
    let script = vec![CHECKSUM_REQUEST, CANCEL, ACK, ACK];
    let (result, written) = run_send(script, &[0x11]);
    assert!(matches!(result, Err(Error::Canceled)));

    let mut block = [0u8; 128];
    block[0] = 0x11;
    assert_eq!(written, frame(1, &block));
}

#[test]
fn cancel_after_first_block() {
    let data: Vec<u8> = (0..200).map(|i| i as u8).collect();
    let script = vec![CHECKSUM_REQUEST, ACK, CANCEL];
    let (result, written) = run_send(script, &data);
    assert!(matches!(result, Err(Error::Canceled)));

    let block1 = &data[0..128];
    let mut block2 = data[128..200].to_vec();
    block2.extend_from_slice(&block1[72..128]);
    let mut expected = frame(1, block1);
    expected.extend_from_slice(&frame(2, &block2));
    assert_eq!(written, expected);
}

#[test]
fn progress_reported_per_acknowledged_block() {
    let data: Vec<u8> = (0..300).map(|i| i as u8).collect();
    let transport = ScriptedTransport::new(vec![CHECKSUM_REQUEST, ACK, ACK, ACK, ACK]);
    let mut sender = Sender::new(transport);
    let mut progress = xmodem::ProgressLog::new();
    assert!(sender.send_with_progress(&data, &mut progress).is_ok());
    assert_eq!(progress.entries(), &vec![(1, 3), (2, 3), (3, 3)]);
}

#[test]
fn progress_chunk_count_convention() {
    // the displayed chunk count is len/128 + 1: one more than the number of
    // blocks sent when the length is an exact multiple of 128
    let data = [0x42u8; 256];
    let transport = ScriptedTransport::new(vec![CHECKSUM_REQUEST, ACK, ACK, ACK]);
    let mut sender = Sender::new(transport);
    let mut progress = xmodem::ProgressLog::new();
    assert!(sender.send_with_progress(&data, &mut progress).is_ok());
    assert_eq!(progress.entries(), &vec![(1, 3), (2, 3)]);
}

#[test]
fn no_progress_for_empty_input() {
    let transport = ScriptedTransport::new(vec![CHECKSUM_REQUEST, ACK]);
    let mut sender = Sender::new(transport);
    let mut progress = xmodem::ProgressLog::new();
    assert!(sender.send_with_progress(&[], &mut progress).is_ok());
    assert!(progress.entries().is_empty());
}

#[test]
fn bad_handshake_byte_is_fatal() {
    let script = vec![0x99, ACK];
    let (result, written) = run_send(script, &[0x01]);
    assert!(matches!(result, Err(Error::BadPacketType(0x99))));
    assert_eq!(written, Vec::<u8>::new());
}

#[test]
fn bad_reply_byte_is_fatal() {
    let script = vec![CHECKSUM_REQUEST, 0x7F];
    let (result, written) = run_send(script, &[0x01]);
    assert!(matches!(result, Err(Error::BadPacketType(0x7F))));
    let mut block = [0u8; 128];
    block[0] = 0x01;
    assert_eq!(written, frame(1, &block));
}

#[test]
fn end_of_transmission_is_not_retried() {
    // a nak to end-of-transmission is fatal, not retried
    let script = vec![CHECKSUM_REQUEST, ACK, NAK];
    let (result, written) = run_send(script, &[0x42]);
    assert!(matches!(result, Err(Error::BadPacketType(NAK))));
    let mut block = [0u8; 128];
    block[0] = 0x42;
    let mut expected = frame(1, &block);
    expected.push(END_OF_TRANSMISSION);
    assert_eq!(written, expected);
}

#[test]
fn exhausted_transport_surfaces_serial_error() {
    let (result, written) = run_send(Vec::new(), &[0x42]);
    assert!(matches!(result, Err(Error::Serial(ScriptExhausted))));
    assert_eq!(written, Vec::<u8>::new());
}

#[test]
fn buffer_reuse_across_sessions() {
    // the packet buffer is not cleared between transfers: a second, shorter
    // send on the same sender is padded with bytes of the first
    let script = vec![CHECKSUM_REQUEST, ACK, ACK, CHECKSUM_REQUEST, ACK, ACK];
    let transport = ScriptedTransport::new(script);
    let mut sender = Sender::new(transport);

    let first: Vec<u8> = (1..=128).map(|i| i as u8).collect();
    assert!(sender.send(&first).is_ok());

    let second = [0xEE, 0xEE];
    assert!(sender.send(&second).is_ok());

    let mut expected = frame(1, &first);
    expected.push(END_OF_TRANSMISSION);
    let mut reused_block = second.to_vec();
    reused_block.extend_from_slice(&first[2..128]);
    expected.extend_from_slice(&frame(1, &reused_block));
    expected.push(END_OF_TRANSMISSION);
    assert_eq!(sender.device().written(), &expected);
    assert!(sender.device().undelivered().is_empty());
}
