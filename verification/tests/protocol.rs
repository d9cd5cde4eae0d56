use ledviz::protocol::{encode_message, trim_buffer, vec_to_buffers, TcpInstruction};

fn instruction_byte(i: TcpInstruction) -> u8 {
    i.to_byte()
}

#[test]
fn from_byte_maps_the_four_instructions() {
    assert!(matches!(TcpInstruction::from_byte(0x00), TcpInstruction::SendGrid));
    assert!(matches!(TcpInstruction::from_byte(0x01), TcpInstruction::GridComplete));
    assert!(matches!(TcpInstruction::from_byte(0x02), TcpInstruction::CloseConnection));
    assert!(matches!(TcpInstruction::from_byte(0x03), TcpInstruction::RequestConfiguration));
}

#[test]
fn from_byte_reads_other_bytes_as_invalid() {
    for b in 4u8..=255 {
        assert!(matches!(TcpInstruction::from_byte(b), TcpInstruction::Invalid));
    }
}

#[test]
fn to_byte_values() {
    assert_eq!(instruction_byte(TcpInstruction::SendGrid), 0x00);
    assert_eq!(instruction_byte(TcpInstruction::GridComplete), 0x01);
    assert_eq!(instruction_byte(TcpInstruction::CloseConnection), 0x02);
    assert_eq!(instruction_byte(TcpInstruction::RequestConfiguration), 0x03);
    assert_eq!(instruction_byte(TcpInstruction::Invalid), 0xFF);
}

#[test]
fn instruction_byte_roundtrip() {
    for b in [0x00u8, 0x01, 0x02, 0x03, 0xFF] {
        assert_eq!(TcpInstruction::from_byte(b).to_byte(), b);
    }
    assert_eq!(TcpInstruction::from_byte(0x42).to_byte(), 0xFF);
}

#[test]
fn vec_to_buffers_of_empty_is_empty() {
    assert!(vec_to_buffers(&[]).is_empty());
}

#[test]
fn vec_to_buffers_small() {
    let buffers = vec_to_buffers(&[7, 9]);
    assert_eq!(buffers.len(), 1);
    assert_eq!(buffers[0].len(), 256);
    assert_eq!(buffers[0][0], 2);
    assert_eq!(buffers[0][1], 7);
    assert_eq!(buffers[0][2], 9);
    assert!(buffers[0][3..].iter().all(|b| *b == 0));
}

#[test]
fn vec_to_buffers_exact_chunk() {
    let data: Vec<u8> = (0..255u32).map(|i| (i % 251) as u8).collect();
    let buffers = vec_to_buffers(&data);
    assert_eq!(buffers.len(), 1);
    assert_eq!(buffers[0][0], 255);
    assert_eq!(&buffers[0][1..], &data[..]);
}

#[test]
fn vec_to_buffers_splits_at_255() {
    let data: Vec<u8> = (0..600u32).map(|i| (i % 256) as u8).collect();
    let buffers = vec_to_buffers(&data);
    assert_eq!(buffers.len(), 3);
    assert_eq!(buffers[0][0], 255);
    assert_eq!(buffers[1][0], 255);
    assert_eq!(buffers[2][0], 90);
    assert_eq!(&buffers[1][1..256], &data[255..510]);
    assert_eq!(&buffers[2][1..91], &data[510..600]);
    assert!(buffers[2][91..].iter().all(|b| *b == 0));
}

#[test]
fn trim_buffer_takes_the_counted_bytes() {
    let mut buffer = [0xAAu8; 256];
    buffer[0] = 3;
    buffer[1] = 1;
    buffer[2] = 2;
    buffer[3] = 3;
    assert_eq!(trim_buffer(&buffer), vec![1, 2, 3]);
}

#[test]
fn trim_buffer_empty_and_full() {
    let mut buffer = [5u8; 256];
    buffer[0] = 0;
    assert_eq!(trim_buffer(&buffer), Vec::<u8>::new());
    buffer[0] = 255;
    assert_eq!(trim_buffer(&buffer).len(), 255);
}

#[test]
fn buffers_roundtrip() {
    let data: Vec<u8> = (0..1000u32).map(|i| (i * 7 % 256) as u8).collect();
    let mut back = Vec::new();
    for b in vec_to_buffers(&data) {
        let array: [u8; 256] = b.as_slice().try_into().unwrap();
        back.extend(trim_buffer(&array));
    }
    assert_eq!(back, data);
}

#[test]
fn encode_message_layout() {
    let message = encode_message(&[4, 2]);
    assert_eq!(message.len(), 1 + 256 + 1);
    assert_eq!(message[0], 0x00);
    assert_eq!(message[1], 2);
    assert_eq!(message[2], 4);
    assert_eq!(message[3], 2);
    assert_eq!(message[257], 0x01);
}

#[test]
fn encode_message_of_empty_is_just_complete() {
    assert_eq!(encode_message(&[]), vec![0x01]);
}
