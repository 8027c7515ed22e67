use xmodem::device::ScriptExhausted;
use xmodem::ACK;
use xmodem::BlockCollector;
use xmodem::CHECKSUM_REQUEST;
use xmodem::END_OF_TRANSMISSION;
use xmodem::END_OF_TRANSMISSION_BLOCK;
use xmodem::Error;
use xmodem::NAK;
use xmodem::Receiver;
use xmodem::ScriptedTransport;
use xmodem::Sender;
use xmodem::START_OF_HEADER;

fn frame(id: u8, block: &[u8]) -> Vec<u8> {
    assert_eq!(block.len(), 128);
    let mut f = vec![START_OF_HEADER, id, !id];
    f.extend_from_slice(block);
    let c = xmodem::checksum(block);
    f.push((c >> 8) as u8);
    f.push((c & 0xFF) as u8);
    f
}

fn run_receive(
    script: Vec<u8>,
) -> (Result<(), Error<ScriptExhausted>>, Vec<u8>, Vec<Vec<u8>>) {
    let transport = ScriptedTransport::new(script);
    let mut receiver = Receiver::new(transport);
    let mut collector = BlockCollector::new();
    let result = receiver.receive(&mut collector);
    let written = receiver.device().written().clone();
    (result, written, collector.blocks().clone())
}

#[test]
fn single_valid_block_is_delivered() {
    let block = [0x5Au8; 128];
    let mut script = frame(1, &block);
    script.push(END_OF_TRANSMISSION);
    script.push(END_OF_TRANSMISSION_BLOCK);
    let (result, written, blocks) = run_receive(script);
    assert!(result.is_ok());
    assert_eq!(written, vec![CHECKSUM_REQUEST, ACK, ACK]);
    assert_eq!(blocks, vec![block.to_vec()]);
}

#[test]
fn corrupted_crc_draws_one_nak_then_accepts() {
    // the same frame arrives first with a corrupted CRC, then intact: exactly
    // one nak goes out and the block is delivered exactly once
    let mut block = [0u8; 128];
    for (i, b) in block.iter_mut().enumerate() {
        *b = i as u8;
    }
    let good = frame(1, &block);
    let mut bad = good.clone();
    bad[132] ^= 0xFF;

    let mut script = bad;
    script.extend_from_slice(&good);
    script.push(END_OF_TRANSMISSION);
    script.push(END_OF_TRANSMISSION_BLOCK);
    let (result, written, blocks) = run_receive(script);
    assert!(result.is_ok());
    assert_eq!(written, vec![CHECKSUM_REQUEST, NAK, ACK, ACK]);
    assert_eq!(blocks, vec![block.to_vec()]);
}

#[test]
fn bad_id_complement_draws_one_nak() {
    let block = [0x33u8; 128];
    let good = frame(2, &block);
    let mut bad = good.clone();
    bad[2] = !bad[2];

    let mut script = bad;
    script.extend_from_slice(&good);
    script.push(END_OF_TRANSMISSION);
    script.push(END_OF_TRANSMISSION_BLOCK);
    let (result, written, blocks) = run_receive(script);
    assert!(result.is_ok());
    assert_eq!(written, vec![CHECKSUM_REQUEST, NAK, ACK, ACK]);
    assert_eq!(blocks, vec![block.to_vec()]);
}

#[test]
fn id_jump_is_fatal() {
    // a valid frame whose id is more than one step from the running id ends
    // the transfer without a nak
    let b1 = [0x01u8; 128];
    let b2 = [0x02u8; 128];
    let mut script = frame(1, &b1);
    script.extend_from_slice(&frame(5, &b2));
    script.push(END_OF_TRANSMISSION);
    script.push(END_OF_TRANSMISSION_BLOCK);
    let (result, written, blocks) = run_receive(script);
    assert!(matches!(result, Err(Error::BadPacketId)));
    assert_eq!(written, vec![CHECKSUM_REQUEST]);
    assert_eq!(blocks, vec![b1.to_vec()]);
}

#[test]
fn id_may_step_either_way() {
    // the tolerated relationship is one step in either direction, wrapping
    let b1 = [0x01u8; 128];
    let b2 = [0x02u8; 128];
    let b3 = [0x03u8; 128];
    let mut script = frame(255, &b1);
    script.extend_from_slice(&frame(0, &b2));
    script.extend_from_slice(&frame(255, &b3));
    script.push(END_OF_TRANSMISSION);
    script.push(END_OF_TRANSMISSION_BLOCK);
    let (result, written, blocks) = run_receive(script);
    assert!(result.is_ok());
    assert_eq!(written, vec![CHECKSUM_REQUEST, ACK, ACK]);
    assert_eq!(blocks, vec![b1.to_vec(), b2.to_vec(), b3.to_vec()]);
}

#[test]
fn stray_byte_instead_of_frame_is_fatal() {
    let script = vec![0x55];
    let (result, written, blocks) = run_receive(script);
    assert!(matches!(result, Err(Error::BadPacketType(0x55))));
    assert_eq!(written, vec![CHECKSUM_REQUEST]);
    assert!(blocks.is_empty());
}

#[test]
fn missing_transmission_block_close_is_fatal() {
    let script = vec![END_OF_TRANSMISSION, 0x41];
    let (result, written, blocks) = run_receive(script);
    assert!(matches!(result, Err(Error::BadPacketType(0x41))));
    assert_eq!(written, vec![CHECKSUM_REQUEST, ACK]);
    assert!(blocks.is_empty());
}

#[test]
fn truncated_frame_surfaces_serial_error() {
    let block = [0x10u8; 128];
    let mut script = frame(1, &block);
    script.truncate(100);
    let (result, written, blocks) = run_receive(script);
    assert!(matches!(result, Err(Error::Serial(ScriptExhausted))));
    assert_eq!(written, vec![CHECKSUM_REQUEST]);
    assert!(blocks.is_empty());
}

#[test]
fn sender_output_feeds_receiver_end_to_end() {
    // a 300-byte transfer: what an always-acking peer draws out of the sender
    // is, closed with end-of-transmission-block, accepted whole by the
    // receiver, delivering three blocks whose leading bytes are the input
    let data: Vec<u8> = (0..300).map(|i| (i * 7) as u8).collect();
    let transport = ScriptedTransport::new(vec![CHECKSUM_REQUEST, ACK, ACK, ACK, ACK]);
    let mut sender = Sender::new(transport);
    assert!(sender.send(&data).is_ok());

    let mut wire = sender.device().written().clone();
    assert_eq!(*wire.last().unwrap(), END_OF_TRANSMISSION);
    wire.push(END_OF_TRANSMISSION_BLOCK);

    let (result, written, blocks) = run_receive(wire);
    assert!(result.is_ok());
    assert_eq!(written, vec![CHECKSUM_REQUEST, ACK, ACK]);
    assert_eq!(blocks.len(), 3);
    assert_eq!(&blocks[0][..], &data[0..128]);
    assert_eq!(&blocks[1][..], &data[128..256]);
    assert_eq!(&blocks[2][..44], &data[256..300]);
    // the tail of the short block is what the previous block left behind
    assert_eq!(&blocks[2][44..], &data[172..256]);
}
