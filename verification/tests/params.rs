use esp32_wroom_rp::network::{ConnectionState, ConnectionStatus, TransportMode};
use esp32_wroom_rp::protocol::operation::Operation;
use esp32_wroom_rp::protocol::{NinaCommand, NinaParam, ParamKind, ProtocolError};
use esp32_wroom_rp::wire::ControlByte;
use esp32_wroom_rp::Error;

fn too_large() -> Error {
    Error::Protocol(ProtocolError::PayloadTooLarge)
}

#[test]
fn a_parameter_holds_the_bytes_it_was_built_from() {
    let param = NinaParam::from_bytes(ParamKind::SmallArray, &[1, 2, 3]).ok().unwrap();
    assert_eq!(param.data(), &[1u8, 2, 3][..]);
    assert_eq!(param.length(), 3);
    assert_eq!(param.length_size(), 1);
    assert_eq!(param.length_as_bytes(), vec![3]);
}

#[test]
fn a_parameter_from_text_holds_the_raw_bytes_of_the_text() {
    let param = NinaParam::new(ParamKind::SmallArray, "h\u{e9}").ok().unwrap();
    assert_eq!(param.data(), &[b'h', 0xC3, 0xA9][..]);
    assert_eq!(param.length_as_bytes(), vec![3]);
}

#[test]
fn the_length_prefix_of_a_large_array_has_two_bytes_most_significant_first() {
    let payload = vec![7u8; 300];
    let param = NinaParam::from_bytes(ParamKind::LargeArray, &payload).ok().unwrap();
    assert_eq!(param.length_size(), 2);
    assert_eq!(param.length_as_bytes(), vec![0x01, 0x2C]);
    assert_eq!(param.length(), 300);
    assert_eq!(param.data().len(), 300);
    let short = NinaParam::from_bytes(ParamKind::LargeArray, &[9]).ok().unwrap();
    assert_eq!(short.length_as_bytes(), vec![0x00, 0x01]);
}

#[test]
fn the_length_prefix_spells_the_length_of_the_payload() {
    for length in [0usize, 1, 127, 255] {
        let payload = vec![0u8; length];
        let param = NinaParam::from_bytes(ParamKind::SmallArray, &payload).ok().unwrap();
        let prefix = param.length_as_bytes();
        assert_eq!(prefix.len(), param.length_size() as usize);
        assert_eq!(prefix[0] as usize, param.data().len());
    }
    for length in [0usize, 255, 256, 5743, 65535] {
        let payload = vec![0u8; length];
        let param = NinaParam::from_bytes(ParamKind::LargeArray, &payload).ok().unwrap();
        let prefix = param.length_as_bytes();
        assert_eq!(prefix.len(), param.length_size() as usize);
        assert_eq!(prefix[0] as usize * 256 + prefix[1] as usize, param.data().len());
    }
}

#[test]
fn a_payload_of_255_bytes_fits_a_prefix_of_one_byte_and_256_do_not() {
    for kind in [ParamKind::Byte, ParamKind::Word, ParamKind::SmallArray] {
        assert!(NinaParam::from_bytes(kind, &[0u8; 255]).is_ok());
        assert_eq!(NinaParam::from_bytes(kind, &[0u8; 256]).err(), Some(too_large()));
    }
    let text = "a".repeat(256);
    assert_eq!(NinaParam::new(ParamKind::SmallArray, &text).err(), Some(too_large()));
    assert!(NinaParam::new(ParamKind::SmallArray, &text[..255]).is_ok());
}

#[test]
fn a_payload_of_65535_bytes_fits_a_prefix_of_two_bytes_and_65536_do_not() {
    let payload = vec![0u8; 65536];
    assert!(NinaParam::from_bytes(ParamKind::LargeArray, &payload[..65535]).is_ok());
    assert_eq!(NinaParam::from_bytes(ParamKind::LargeArray, &payload).err(), Some(too_large()));
    let text = "b".repeat(65536);
    assert_eq!(NinaParam::new(ParamKind::LargeArray, &text).err(), Some(too_large()));
}

#[test]
fn an_operation_keeps_its_parameters_in_the_order_of_adding() {
    let operation = Operation::new(NinaCommand::SetPassphrase)
        .param(NinaParam::new(ParamKind::SmallArray, "net").ok().unwrap())
        .param(NinaParam::new(ParamKind::SmallArray, "secret").ok().unwrap());
    assert_eq!(operation.command(), NinaCommand::SetPassphrase);
    assert_eq!(operation.param_count(), 2);
    assert_eq!(operation.param_at(0).data(), b"net");
    assert_eq!(operation.param_at(1).data(), b"secret");
    assert_eq!(Operation::new(NinaCommand::GetSocket).param_count(), 0);
}

#[test]
fn the_control_bytes_are_those_of_the_peer() {
    assert_eq!(ControlByte::Start.as_byte(), 0xE0);
    assert_eq!(ControlByte::End.as_byte(), 0xEE);
    assert_eq!(ControlByte::Reply.as_byte(), 0x80);
    assert_eq!(ControlByte::Dummy.as_byte(), 0xFF);
    assert_eq!(ControlByte::Error.as_byte(), 0xEF);
}

#[test]
fn the_command_codes_are_those_of_the_peer() {
    assert_eq!(NinaCommand::SetPassphrase.as_byte(), 0x11);
    assert_eq!(NinaCommand::SetDNSConfig.as_byte(), 0x15);
    assert_eq!(NinaCommand::GetConnStatus.as_byte(), 0x20);
    assert_eq!(NinaCommand::AvailDataTcp.as_byte(), 0x2b);
    assert_eq!(NinaCommand::StartClientTcp.as_byte(), 0x2d);
    assert_eq!(NinaCommand::StopClientTcp.as_byte(), 0x2e);
    assert_eq!(NinaCommand::GetClientStateTcp.as_byte(), 0x2f);
    assert_eq!(NinaCommand::Disconnect.as_byte(), 0x30);
    assert_eq!(NinaCommand::ReqHostByName.as_byte(), 0x34);
    assert_eq!(NinaCommand::GetHostByName.as_byte(), 0x35);
    assert_eq!(NinaCommand::GetFwVersion.as_byte(), 0x37);
    assert_eq!(NinaCommand::GetSocket.as_byte(), 0x3f);
    assert_eq!(NinaCommand::SendDataTcp.as_byte(), 0x44);
    assert_eq!(NinaCommand::GetDataBufTcp.as_byte(), 0x45);
}

#[test]
fn reply_bytes_name_states_and_modes() {
    assert_eq!(ConnectionStatus::from_byte(0), ConnectionStatus::Idle);
    assert_eq!(ConnectionStatus::from_byte(3), ConnectionStatus::Connected);
    assert_eq!(ConnectionStatus::from_byte(6), ConnectionStatus::Disconnected);
    assert_eq!(ConnectionStatus::from_byte(255), ConnectionStatus::NoEsp32);
    assert_eq!(ConnectionStatus::from_byte(10), ConnectionStatus::Invalid);
    assert_eq!(ConnectionState::from_byte(0), ConnectionState::Closed);
    assert_eq!(ConnectionState::from_byte(4), ConnectionState::Established);
    assert_eq!(ConnectionState::from_byte(10), ConnectionState::TimeWait);
    assert_eq!(ConnectionState::from_byte(11), ConnectionState::Closed);
    assert_eq!(TransportMode::Tcp.as_byte(), 0);
    assert_eq!(TransportMode::Udp.as_byte(), 1);
    assert_eq!(TransportMode::Tls.as_byte(), 2);
}
