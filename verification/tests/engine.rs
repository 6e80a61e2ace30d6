use std::cell::RefCell;
use std::collections::VecDeque;
use std::rc::Rc;

use esp32_wroom_rp::bus::Transfer;
use esp32_wroom_rp::gpio::{DelayMs, EspControlInterface, IOError};
use esp32_wroom_rp::network::{ConnectionState, ConnectionStatus, NetworkError, TransportMode};
use esp32_wroom_rp::protocol::operation::Operation;
use esp32_wroom_rp::protocol::{
    NinaCommand, NinaParam, ParamKind, ProtocolError, MAX_NINA_RESPONSE_LENGTH,
};
use esp32_wroom_rp::spi::NinaProtocolHandler;
use esp32_wroom_rp::wifi::Wifi;
use esp32_wroom_rp::{Error, FirmwareVersion};

/// What the engine did, as the collaborators saw it.
#[derive(Clone, Copy, Debug, PartialEq, Eq)]
enum Seen {
    Select,
    Deselect,
    Byte(u8),
    Delay(u16),
    Init,
    Reset,
}

/// The far end: it answers each transaction from a script of its own, and
/// with zeros once the script of the transaction is used up.
#[derive(Default)]
struct Peer {
    seen: Vec<Seen>,
    scripts: VecDeque<VecDeque<u8>>,
    current: VecDeque<u8>,
    selected: bool,
    failing_selects: bool,
    failing_deselects: bool,
}

impl Peer {
    fn sent(&self) -> Vec<u8> {
        self.seen
            .iter()
            .filter_map(|seen| match seen {
                Seen::Byte(byte) => Some(*byte),
                _ => None,
            })
            .collect()
    }

    fn count(&self, wanted: Seen) -> usize {
        self.seen.iter().filter(|seen| **seen == wanted).count()
    }

    fn transactions(&self) -> Vec<Vec<u8>> {
        let mut all = Vec::new();
        let mut open: Option<Vec<u8>> = None;
        for seen in &self.seen {
            match seen {
                Seen::Select => open = Some(Vec::new()),
                Seen::Byte(byte) => open.as_mut().expect("a byte outside a transaction").push(*byte),
                Seen::Deselect => all.push(open.take().unwrap_or_default()),
                _ => {}
            }
        }
        assert!(open.is_none(), "a transaction was left open");
        all
    }
}

#[derive(Clone)]
struct ScriptedBus(Rc<RefCell<Peer>>);

impl Transfer for ScriptedBus {
    fn transfer(&mut self, word: u8) -> u8 {
        let mut peer = self.0.borrow_mut();
        assert!(peer.selected, "a byte went out while the peer was not selected");
        peer.seen.push(Seen::Byte(word));
        peer.current.pop_front().unwrap_or(0)
    }
}

#[derive(Clone)]
struct ScriptedPins(Rc<RefCell<Peer>>);

impl EspControlInterface for ScriptedPins {
    fn init(&mut self) -> Result<(), IOError> {
        self.0.borrow_mut().seen.push(Seen::Init);
        Ok(())
    }

    fn reset<D: DelayMs>(&mut self, delay: &mut D) -> Result<(), IOError> {
        self.0.borrow_mut().seen.push(Seen::Reset);
        delay.delay_ms(10);
        delay.delay_ms(750);
        Ok(())
    }

    fn esp_select(&mut self) -> Result<(), IOError> {
        self.0.borrow_mut().selected = true;
        Ok(())
    }

    fn esp_deselect(&mut self) -> Result<(), IOError> {
        let mut peer = self.0.borrow_mut();
        peer.seen.push(Seen::Deselect);
        peer.selected = false;
        if peer.failing_deselects {
            Err(IOError::Pin)
        } else {
            Ok(())
        }
    }

    fn get_esp_ready(&mut self) -> Result<bool, IOError> {
        Ok(true)
    }

    fn get_esp_ack(&mut self) -> Result<bool, IOError> {
        Ok(true)
    }

    fn wait_for_esp_ready(&mut self) -> Result<(), IOError> {
        Ok(())
    }

    fn wait_for_esp_ack(&mut self) -> Result<(), IOError> {
        Ok(())
    }

    fn wait_for_esp_select(&mut self) -> Result<(), IOError> {
        let mut peer = self.0.borrow_mut();
        peer.seen.push(Seen::Select);
        if peer.failing_selects {
            return Err(IOError::Pin);
        }
        peer.selected = true;
        peer.current = peer.scripts.pop_front().unwrap_or_default();
        Ok(())
    }
}

#[derive(Clone)]
struct ScriptedDelay(Rc<RefCell<Peer>>);

impl DelayMs for ScriptedDelay {
    fn delay_ms(&mut self, ms: u16) {
        self.0.borrow_mut().seen.push(Seen::Delay(ms));
    }
}

type Engine = NinaProtocolHandler<ScriptedBus, ScriptedPins>;

fn engine(scripts: &[&[u8]]) -> (Engine, Rc<RefCell<Peer>>) {
    let peer = Rc::new(RefCell::new(Peer::default()));
    peer.borrow_mut().scripts = scripts.iter().map(|script| script.iter().copied().collect()).collect();
    (NinaProtocolHandler::new(ScriptedBus(peer.clone()), ScriptedPins(peer.clone())), peer)
}

/// An engine in the middle of a transaction that the peer answers with
/// `script`.
fn selected_engine(script: &[u8]) -> (Engine, Rc<RefCell<Peer>>) {
    let (handler, peer) = engine(&[]);
    peer.borrow_mut().selected = true;
    peer.borrow_mut().current = script.iter().copied().collect();
    (handler, peer)
}

fn reply(command: u8, payload: &[u8]) -> Vec<u8> {
    let mut frame = vec![0xE0, command | 0x80, 1, payload.len() as u8];
    frame.extend_from_slice(payload);
    frame.push(0xEE);
    frame
}

fn long_reply(command: u8, payload: &[u8]) -> Vec<u8> {
    let mut frame = vec![0xE0, command | 0x80, 1, (payload.len() >> 8) as u8, payload.len() as u8];
    frame.extend_from_slice(payload);
    frame.push(0xEE);
    frame
}

fn buffer_with(payload: &[u8]) -> [u8; MAX_NINA_RESPONSE_LENGTH] {
    let mut buffer = [0u8; MAX_NINA_RESPONSE_LENGTH];
    buffer[..payload.len()].copy_from_slice(payload);
    buffer
}

fn protocol(error: ProtocolError) -> Error {
    Error::Protocol(error)
}

fn assert_released(peer: &Rc<RefCell<Peer>>) {
    let peer = peer.borrow();
    assert!(!peer.selected, "chip-select was left low");
    assert_eq!(peer.count(Seen::Select), peer.count(Seen::Deselect));
    if let Some(last) = peer.seen.iter().rev().find(|seen| matches!(seen, Seen::Select | Seen::Deselect)) {
        assert_eq!(*last, Seen::Deselect);
    }
}

#[test]
fn too_large_of_a_nina_param_throws_error() {
    let bytes = [0xA; 256];
    let str_slice: &str = std::str::from_utf8(&bytes).unwrap();

    let (mut protocol_handler, peer) = engine(&[]);

    let result = protocol_handler.set_passphrase(str_slice, "");

    assert_eq!(
        result.unwrap_err(),
        Error::Protocol(ProtocolError::PayloadTooLarge)
    );
    assert!(peer.borrow().seen.is_empty());
}

#[test]
fn a_passphrase_that_is_too_long_sends_nothing_either() {
    let passphrase = "p".repeat(256);
    let (mut handler, peer) = engine(&[]);
    assert_eq!(
        handler.set_passphrase("net", &passphrase),
        Err(protocol(ProtocolError::PayloadTooLarge))
    );
    assert!(peer.borrow().seen.is_empty());
}

#[test]
fn get_byte_sends_the_dummy_byte_and_returns_what_came_in() {
    let (mut handler, peer) = selected_engine(&[0x42, 0x43]);
    assert_eq!(handler.get_byte().unwrap(), 0x42);
    assert_eq!(handler.get_byte().unwrap(), 0x43);
    assert_eq!(peer.borrow().sent(), vec![0xFF, 0xFF]);
}

#[test]
fn combine_2_bytes_takes_the_low_byte_first() {
    assert_eq!(Engine::combine_2_bytes(0x70, 0x16), 0x1670);
    assert_eq!(Engine::combine_2_bytes(0xFF, 0x00), 0x00FF);
    assert_eq!(Engine::combine_2_bytes(0x00, 0xFF), 0xFF00);
    assert_eq!(Engine::combine_2_bytes(0, 0), 0);
}

#[test]
fn split_word_gives_the_high_byte_first() {
    assert_eq!(Engine::split_word(0x1670), [0x16, 0x70]);
    assert_eq!(Engine::split_word(0x00FF), [0x00, 0xFF]);
    assert_eq!(Engine::split_word(0xFFFF), [0xFF, 0xFF]);
    assert_eq!(Engine::split_word(80), [0, 80]);
}

#[test]
fn splitting_and_combining_undo_each_other() {
    for word in [0u16, 1, 255, 256, 5743, 5744, 0x8000, 0xFFFF] {
        let [high, low] = Engine::split_word(word);
        assert_eq!(Engine::combine_2_bytes(low, high), word);
    }
    for (low, high) in [(0u8, 0u8), (1, 2), (0xFF, 0), (0, 0xFF), (0xAB, 0xCD)] {
        assert_eq!(Engine::split_word(Engine::combine_2_bytes(low, high)), [high, low]);
    }
}

#[test]
fn send_cmd_clears_the_reply_flag_and_closes_a_request_without_parameters() {
    let (mut handler, peer) = selected_engine(&[]);
    assert_eq!(handler.send_cmd(&NinaCommand::GetFwVersion, 0), Ok(()));
    assert_eq!(peer.borrow().sent(), vec![0xE0, 0x37, 0x00, 0xEE]);
    let (mut handler, peer) = selected_engine(&[]);
    assert_eq!(handler.send_cmd(&NinaCommand::SetPassphrase, 2), Ok(()));
    assert_eq!(peer.borrow().sent(), vec![0xE0, 0x11, 0x02]);
}

#[test]
fn send_param_sends_the_length_prefix_and_then_the_payload() {
    let (mut handler, peer) = selected_engine(&[]);
    let small = NinaParam::from_bytes(ParamKind::SmallArray, &[8, 8, 4, 4]).ok().unwrap();
    assert!(handler.send_param(&small).is_ok());
    assert_eq!(peer.borrow().sent(), vec![4, 8, 8, 4, 4]);
    let (mut handler, peer) = selected_engine(&[]);
    let large = NinaParam::from_bytes(ParamKind::LargeArray, &[0x16, 0x6F]).ok().unwrap();
    assert!(handler.send_param(&large).is_ok());
    assert_eq!(peer.borrow().sent(), vec![0, 2, 0x16, 0x6F]);
    let (mut handler, peer) = selected_engine(&[]);
    assert!(handler.send_param_length(&large).is_ok());
    assert!(handler.send_end_cmd().is_ok());
    assert_eq!(peer.borrow().sent(), vec![0, 2, 0xEE]);
}

#[test]
fn pad_to_multiple_of_4_reads_until_the_size_is_aligned() {
    for (size, reads) in [(4usize, 0usize), (5, 3), (6, 2), (7, 1), (8, 0), (11, 1), (65537, 3)] {
        let (mut handler, peer) = selected_engine(&[]);
        handler.pad_to_multiple_of_4(size);
        assert_eq!(peer.borrow().sent(), vec![0xFF; reads]);
    }
}

#[test]
fn execute_frames_a_request_without_parameters_in_four_bytes() {
    let (mut handler, peer) = engine(&[]);
    assert_eq!(handler.execute(&Operation::new(NinaCommand::GetFwVersion)), Ok(()));
    assert_eq!(
        peer.borrow().seen,
        vec![
            Seen::Select,
            Seen::Byte(0xE0),
            Seen::Byte(0x37),
            Seen::Byte(0x00),
            Seen::Byte(0xEE),
            Seen::Deselect
        ]
    );
}

#[test]
fn execute_pads_a_request_to_a_multiple_of_four_bytes() {
    let (mut handler, peer) = engine(&[]);
    assert_eq!(handler.set_passphrase("ab", "cde"), Err(protocol(ProtocolError::CommunicationTimeout)));
    let transactions = peer.borrow().transactions();
    assert_eq!(
        transactions[0],
        vec![0xE0, 0x11, 0x02, 0x02, b'a', b'b', 0x03, b'c', b'd', b'e', 0xEE, 0xFF]
    );
    assert_released(&peer);
}

#[test]
fn every_request_takes_a_multiple_of_four_bytes() {
    for length in 0..=9usize {
        let (mut handler, peer) = engine(&[]);
        let payload = vec![0x55u8; length];
        let operation = Operation::new(NinaCommand::SendDataTcp)
            .param(NinaParam::from_bytes(ParamKind::LargeArray, &[3]).ok().unwrap())
            .param(NinaParam::from_bytes(ParamKind::LargeArray, &payload).ok().unwrap());
        assert_eq!(handler.execute(&operation), Ok(()));
        let sent = peer.borrow().sent();
        assert_eq!(sent.len() % 4, 0);
        let framed = 4 + 2 + 1 + 2 + length;
        assert_eq!(sent.len(), (framed + 3) / 4 * 4);
        assert_eq!(sent[framed - 1], 0xEE);
        assert!(sent[framed..].iter().all(|byte| *byte == 0xFF));
        assert_released(&peer);
    }
}

#[test]
fn wait_for_byte_ends_at_the_first_occurrence() {
    let (mut handler, peer) = selected_engine(&[0x00, 0x11, 0xE0, 0xE0]);
    assert_eq!(handler.wait_for_byte(0xE0), Ok(true));
    assert_eq!(peer.borrow().sent().len(), 3);
}

#[test]
fn wait_for_byte_gives_up_after_the_retry_limit() {
    let (mut handler, peer) = selected_engine(&[]);
    assert_eq!(handler.wait_for_byte(0xE0), Err(protocol(ProtocolError::CommunicationTimeout)));
    assert_eq!(peer.borrow().sent(), vec![0xFF; 1000]);
}

#[test]
fn wait_for_byte_finds_the_byte_at_the_last_try() {
    let mut script = vec![0u8; 999];
    script.push(0xE0);
    let (mut handler, peer) = selected_engine(&script);
    assert_eq!(handler.wait_for_byte(0xE0), Ok(true));
    assert_eq!(peer.borrow().sent().len(), 1000);
}

#[test]
fn wait_for_byte_reads_two_bytes_more_after_the_error_byte() {
    let (mut handler, peer) = selected_engine(&[0x01, 0xEF, 0x00, 0xEE, 0xE0]);
    assert_eq!(
        handler.wait_for_byte(0xE0),
        Err(protocol(ProtocolError::NinaProtocolVersionMismatch))
    );
    assert_eq!(peer.borrow().sent().len(), 4);
    assert_eq!(handler.get_byte().unwrap(), 0xE0);
}

#[test]
fn the_error_byte_counts_before_the_byte_waited_for() {
    let (mut handler, peer) = selected_engine(&[0xEF, 0x01, 0x02]);
    assert_eq!(
        handler.wait_for_byte(0xEF),
        Err(protocol(ProtocolError::NinaProtocolVersionMismatch))
    );
    assert_eq!(peer.borrow().sent().len(), 3);
}

#[test]
fn check_start_cmd_waits_for_the_start_byte() {
    let (mut handler, peer) = selected_engine(&[0xFF, 0xE0]);
    assert_eq!(handler.check_start_cmd(), Ok(true));
    assert_eq!(peer.borrow().sent().len(), 2);
}

#[test]
fn read_and_check_byte_compares_one_byte() {
    let (mut handler, peer) = selected_engine(&[0xEE, 0xEE]);
    assert_eq!(handler.read_and_check_byte(&0xEE).unwrap(), true);
    assert_eq!(handler.read_and_check_byte(&0xE0).unwrap(), false);
    assert_eq!(peer.borrow().sent(), vec![0xFF, 0xFF]);
}

#[test]
fn check_response_ready_accepts_the_header_of_the_reply() {
    let (mut handler, peer) = selected_engine(&[0x00, 0xE0, 0xB7, 0x01, 0x05]);
    assert_eq!(handler.check_response_ready(&NinaCommand::GetFwVersion, 1), Ok(()));
    assert_eq!(peer.borrow().sent().len(), 4);
}

#[test]
fn check_response_ready_refuses_the_reply_to_another_command() {
    let (mut handler, peer) = selected_engine(&[0xE0, 0xB5, 0x01]);
    assert_eq!(
        handler.check_response_ready(&NinaCommand::GetFwVersion, 1),
        Err(protocol(ProtocolError::InvalidCommand))
    );
    assert_eq!(peer.borrow().sent().len(), 2);
    let (mut handler, _) = selected_engine(&[0xE0, 0x37, 0x01]);
    assert_eq!(
        handler.check_response_ready(&NinaCommand::GetFwVersion, 1),
        Err(protocol(ProtocolError::InvalidCommand))
    );
}

#[test]
fn check_response_ready_refuses_another_number_of_parameters() {
    let (mut handler, peer) = selected_engine(&[0xE0, 0xB7, 0x02]);
    assert_eq!(
        handler.check_response_ready(&NinaCommand::GetFwVersion, 1),
        Err(protocol(ProtocolError::InvalidNumberOfParameters))
    );
    assert_eq!(peer.borrow().sent().len(), 3);
}

#[test]
fn check_response_ready_passes_on_how_the_wait_failed() {
    let (mut handler, _) = selected_engine(&[0xEF, 0x00, 0xEE]);
    assert_eq!(
        handler.check_response_ready(&NinaCommand::GetFwVersion, 1),
        Err(protocol(ProtocolError::NinaProtocolVersionMismatch))
    );
    let (mut handler, _) = selected_engine(&[]);
    assert_eq!(
        handler.check_response_ready(&NinaCommand::GetFwVersion, 1),
        Err(protocol(ProtocolError::CommunicationTimeout))
    );
}

#[test]
fn read_response_reads_the_payload_into_a_buffer_of_zeros() {
    let (mut handler, peer) = selected_engine(&[0x03, 0xA1, 0xA2, 0xA3, 0xEE, 0x99]);
    assert_eq!(handler.read_response(), Ok(buffer_with(&[0xA1, 0xA2, 0xA3])));
    assert_eq!(peer.borrow().sent().len(), 5);
}

#[test]
fn read_response_does_not_hold_a_wrong_end_byte_against_the_reply() {
    let (mut handler, peer) = selected_engine(&[0x01, 0x07, 0x00]);
    assert_eq!(handler.read_response(), Ok(buffer_with(&[0x07])));
    assert_eq!(peer.borrow().sent().len(), 3);
}

#[test]
fn read_response_takes_an_empty_payload() {
    let (mut handler, peer) = selected_engine(&[0x00, 0xEE]);
    assert_eq!(handler.read_response(), Ok(buffer_with(&[])));
    assert_eq!(peer.borrow().sent().len(), 2);
}

#[test]
fn read_response_refuses_a_length_above_the_limit() {
    let (mut handler, peer) = selected_engine(&[0x09, 1, 2, 3]);
    assert_eq!(handler.read_response(), Err(protocol(ProtocolError::TooManyParameters)));
    assert_eq!(peer.borrow().sent().len(), 1);
    let (mut handler, _) = selected_engine(&[0x08, 1, 2, 3, 4, 5, 6, 7, 8, 0xEE]);
    assert_eq!(handler.read_response(), Ok(buffer_with(&[1, 2, 3, 4, 5, 6, 7, 8])));
}

#[test]
fn read_response_bytes_fills_the_front_and_keeps_the_rest() {
    let (mut handler, peer) = selected_engine(&[1, 2, 3]);
    let mut held = [0u8; MAX_NINA_RESPONSE_LENGTH];
    held[1] = 0x77;
    held[2] = 0x88;
    held[3] = 0x99;
    let filled = handler.read_response_bytes(held, 2).ok().unwrap();
    assert_eq!(&filled[..5], &[1, 2, 0x88, 0x99, 0]);
    assert_eq!(peer.borrow().sent().len(), 2);
}

#[test]
fn read_response16_reads_the_length_most_significant_byte_first() {
    let payload: Vec<u8> = (0..300u32).map(|i| (i % 251) as u8 + 1).collect();
    let mut script = vec![0x01, 0x2C];
    script.extend_from_slice(&payload);
    script.push(0xEE);
    let (mut handler, peer) = selected_engine(&script);
    assert_eq!(handler.read_response16(), Ok((300, buffer_with(&payload))));
    assert_eq!(peer.borrow().sent().len(), 303);
}

#[test]
fn read_response16_stops_where_the_buffer_ends() {
    let payload = vec![0x5Au8; 6000];
    let mut script = vec![0x17, 0x70];
    script.extend_from_slice(&payload);
    let (mut handler, peer) = selected_engine(&script);
    let (length, buffer) = handler.read_response16().ok().unwrap();
    assert_eq!(length, MAX_NINA_RESPONSE_LENGTH);
    assert!(buffer.iter().all(|byte| *byte == 0x5A));
    assert_eq!(peer.borrow().sent().len(), 2 + MAX_NINA_RESPONSE_LENGTH + 1);
}

#[test]
fn get_fw_version_succeeds() {
    let answer = [0xE0, 0xB7, 0x01, 0x05, b'1', b'.', b'7', b'.', b'4', 0xEE];
    let (mut handler, peer) = engine(&[&[], &answer]);
    assert_eq!(handler.get_fw_version(), Ok(FirmwareVersion { major: 1, minor: 7, patch: 4 }));
    let transactions = peer.borrow().transactions();
    assert_eq!(transactions.len(), 2);
    assert_eq!(transactions[0], vec![0xE0, 0x37, 0x00, 0xEE]);
    assert_eq!(transactions[1], vec![0xFF; 10]);
    assert_released(&peer);
}

#[test]
fn wifi_passes_the_question_for_the_version_on() {
    let answer = reply(0x37, b"1.7.4");
    let (handler, peer) = engine(&[&[], &answer]);
    let mut wifi = Wifi::new(handler);
    assert_eq!(wifi.get_firmware_version(), Ok(FirmwareVersion { major: 1, minor: 7, patch: 4 }));
    assert_eq!(peer.borrow().transactions()[0], vec![0xE0, 0x37, 0x00, 0xEE]);
    let mut handler = wifi.release();
    assert_eq!(handler.get_fw_version(), Err(protocol(ProtocolError::CommunicationTimeout)));
    assert_released(&peer);
}

#[test]
fn resolve_fails_when_the_peer_finds_no_address() {
    let accepted = reply(0x34, &[1]);
    let miss = reply(0x35, &[0xFF, 0xFF, 0xFF, 0xFF]);
    let (mut handler, peer) = engine(&[&[], &accepted, &[], &miss]);
    assert_eq!(
        handler.resolve("example.invalid"),
        Err(Error::Network(NetworkError::DnsResolveFailed))
    );
    assert_eq!(peer.borrow().transactions().len(), 4);
    assert_released(&peer);
}

#[test]
fn resolve_returns_the_address_that_the_peer_found() {
    let accepted = reply(0x34, &[1]);
    let hit = reply(0x35, &[8, 8, 8, 8]);
    let (mut handler, peer) = engine(&[&[], &accepted, &[], &hit]);
    assert_eq!(handler.resolve("dns.google"), Ok([8, 8, 8, 8]));
    let transactions = peer.borrow().transactions();
    let mut request = vec![0xE0, 0x34, 0x01, 10];
    request.extend_from_slice(b"dns.google");
    request.extend_from_slice(&[0xEE, 0xFF]);
    assert_eq!(transactions[0], request);
    assert_eq!(transactions[2], vec![0xE0, 0x35, 0x00, 0xEE]);
    assert_released(&peer);
}

#[test]
fn resolve_stops_when_the_peer_refuses_the_request() {
    let refused = reply(0x34, &[0]);
    let (mut handler, peer) = engine(&[&[], &refused]);
    assert_eq!(handler.resolve("dns.google"), Err(Error::Network(NetworkError::DnsResolveFailed)));
    assert_eq!(peer.borrow().transactions().len(), 2);
    assert_released(&peer);
}

#[test]
fn resolve_takes_an_address_with_some_bytes_of_255() {
    let accepted = reply(0x34, &[1]);
    let hit = reply(0x35, &[255, 255, 255, 0]);
    let (mut handler, _) = engine(&[&[], &accepted, &[], &hit]);
    assert_eq!(handler.resolve("broadcast"), Ok([255, 255, 255, 0]));
}

#[test]
fn a_host_name_that_is_too_long_sends_nothing() {
    let name = "n".repeat(256);
    let (mut handler, peer) = engine(&[]);
    assert_eq!(handler.resolve(&name), Err(protocol(ProtocolError::PayloadTooLarge)));
    assert_eq!(handler.req_host_by_name(&name), Err(protocol(ProtocolError::PayloadTooLarge)));
    assert!(peer.borrow().seen.is_empty());
}

#[test]
fn the_error_byte_fails_the_command_and_leaves_the_peer_released() {
    let (mut handler, peer) = engine(&[&[], &[0xEF, 0x12, 0x34]]);
    assert_eq!(
        handler.get_fw_version(),
        Err(protocol(ProtocolError::NinaProtocolVersionMismatch))
    );
    assert_eq!(peer.borrow().transactions()[1], vec![0xFF; 3]);
    assert_released(&peer);
}

#[test]
fn receive_passes_the_failure_of_the_header_on() {
    let (mut handler, peer) = engine(&[&[0xE0, 0xB0, 0x01, 0x01, 0x01, 0xEE]]);
    let operation = Operation::new(NinaCommand::GetSocket);
    assert_eq!(handler.receive(&operation, 1), Err(protocol(ProtocolError::InvalidCommand)));
    assert_eq!(peer.borrow().transactions()[0].len(), 2);
    assert_released(&peer);
    let (mut handler, peer) = engine(&[&[0xE0, 0xBF, 0x01, 0x09]]);
    assert_eq!(handler.receive(&operation, 1), Err(protocol(ProtocolError::TooManyParameters)));
    assert_released(&peer);
}

#[test]
fn receive_data16_releases_the_peer_when_the_header_fails() {
    let operation = Operation::new(NinaCommand::GetDataBufTcp);
    let (mut handler, peer) = engine(&[&[0xE0, 0xC5, 0x02]]);
    assert_eq!(
        handler.receive_data16(&operation, 1),
        Err(protocol(ProtocolError::InvalidNumberOfParameters))
    );
    assert_released(&peer);
    let answer = long_reply(0x45, &[9, 8, 7]);
    let (mut handler, peer) = engine(&[&answer]);
    assert_eq!(handler.receive_data16(&operation, 1), Ok((3, buffer_with(&[9, 8, 7]))));
    assert_released(&peer);
}

#[test]
fn a_fault_of_the_handshake_fails_the_command_before_a_byte_goes_out() {
    let (mut handler, peer) = engine(&[]);
    peer.borrow_mut().failing_selects = true;
    assert_eq!(handler.get_socket(), Err(Error::Io(IOError::Pin)));
    assert_eq!(peer.borrow().seen, vec![Seen::Select, Seen::Deselect]);
    let operation = Operation::new(NinaCommand::GetSocket);
    assert_eq!(handler.receive(&operation, 1), Err(Error::Io(IOError::Pin)));
    assert_eq!(handler.receive_data16(&operation, 1).err(), Some(Error::Io(IOError::Pin)));
    assert_eq!(peer.borrow().sent(), Vec::<u8>::new());
}

#[test]
fn a_fault_of_the_release_fails_a_command_that_went_well() {
    let (mut handler, peer) = engine(&[]);
    peer.borrow_mut().failing_deselects = true;
    assert_eq!(handler.execute(&Operation::new(NinaCommand::GetSocket)), Err(Error::Io(IOError::Pin)));
    assert_eq!(peer.borrow().sent(), vec![0xE0, 0x3F, 0x00, 0xEE]);
    let answer = reply(0x3F, &[2]);
    let (mut handler, peer) = engine(&[&answer]);
    peer.borrow_mut().failing_deselects = true;
    let operation = Operation::new(NinaCommand::GetSocket);
    assert_eq!(handler.receive(&operation, 1), Err(Error::Io(IOError::Pin)));
    let (mut handler, peer) = engine(&[&[0xE0, 0x00]]);
    peer.borrow_mut().failing_deselects = true;
    assert_eq!(handler.receive(&operation, 1), Err(protocol(ProtocolError::InvalidCommand)));
}

#[test]
fn set_passphrase_sends_the_name_and_the_passphrase() {
    let ack = reply(0x11, &[1]);
    let (mut handler, peer) = engine(&[&[], &ack]);
    assert_eq!(handler.set_passphrase("net", "secret"), Ok(()));
    let mut request = vec![0xE0, 0x11, 0x02, 3];
    request.extend_from_slice(b"net");
    request.push(6);
    request.extend_from_slice(b"secret");
    request.extend_from_slice(&[0xEE, 0xFF]);
    assert_eq!(peer.borrow().transactions()[0], request);
    assert_released(&peer);
}

#[test]
fn get_conn_status_decodes_the_status_byte() {
    let answer = reply(0x20, &[3]);
    let (mut handler, peer) = engine(&[&[], &answer]);
    assert_eq!(handler.get_conn_status(), Ok(ConnectionStatus::Connected));
    assert_eq!(peer.borrow().transactions()[0], vec![0xE0, 0x20, 0x00, 0xEE]);
}

#[test]
fn disconnect_sends_one_dummy_byte() {
    let ack = reply(0x30, &[1]);
    let (mut handler, peer) = engine(&[&[], &ack]);
    assert_eq!(handler.disconnect(), Ok(()));
    assert_eq!(
        peer.borrow().transactions()[0],
        vec![0xE0, 0x30, 0x01, 0x01, 0xFF, 0xEE, 0xFF, 0xFF]
    );
}

#[test]
fn set_dns_config_sends_zeros_for_a_second_server_that_is_not_there() {
    let ack = reply(0x15, &[1]);
    let (mut handler, peer) = engine(&[&[], &ack]);
    assert_eq!(handler.set_dns_config([9, 9, 9, 9], None), Ok(()));
    assert_eq!(
        peer.borrow().transactions()[0],
        vec![0xE0, 0x15, 0x03, 1, 1, 4, 9, 9, 9, 9, 4, 0, 0, 0, 0, 0xEE]
    );
    let (mut handler, peer) = engine(&[&[], &ack]);
    assert_eq!(handler.set_dns_config([9, 9, 9, 9], Some([1, 1, 1, 1])), Ok(()));
    assert_eq!(
        peer.borrow().transactions()[0],
        vec![0xE0, 0x15, 0x03, 1, 1, 4, 9, 9, 9, 9, 4, 1, 1, 1, 1, 0xEE]
    );
}

#[test]
fn req_host_by_name_wants_the_byte_1() {
    let ack = reply(0x34, &[1]);
    let (mut handler, _) = engine(&[&[], &ack]);
    assert_eq!(handler.req_host_by_name("host"), Ok(1));
    let nack = reply(0x34, &[2]);
    let (mut handler, _) = engine(&[&[], &nack]);
    assert_eq!(handler.req_host_by_name("host"), Err(Error::Network(NetworkError::DnsResolveFailed)));
}

#[test]
fn get_host_by_name_returns_the_reply_as_it_came() {
    let answer = reply(0x35, &[10, 0, 0, 7]);
    let (mut handler, _) = engine(&[&[], &answer]);
    assert_eq!(handler.get_host_by_name(), Ok(buffer_with(&[10, 0, 0, 7])));
}

#[test]
fn get_socket_returns_the_handle() {
    let answer = reply(0x3F, &[4]);
    let (mut handler, _) = engine(&[&[], &answer]);
    assert_eq!(handler.get_socket(), Ok(4));
}

#[test]
fn start_client_tcp_sends_the_port_most_significant_byte_first() {
    let ack = reply(0x2D, &[1]);
    let (mut handler, peer) = engine(&[&[], &ack]);
    assert_eq!(handler.start_client_tcp(2, [10, 0, 0, 1], 0x1F90, &TransportMode::Tcp), Ok(()));
    assert_eq!(
        peer.borrow().transactions()[0],
        vec![0xE0, 0x2D, 0x04, 4, 10, 0, 0, 1, 2, 0x1F, 0x90, 1, 2, 1, 0, 0xEE]
    );
    let nack = reply(0x2D, &[0]);
    let (mut handler, peer) = engine(&[&[], &nack]);
    assert_eq!(
        handler.start_client_tcp(2, [10, 0, 0, 1], 80, &TransportMode::Tls),
        Err(Error::Network(NetworkError::ConnectFailed))
    );
    assert_eq!(peer.borrow().transactions()[0][13..16], [1, 2, 0xEE]);
    assert_released(&peer);
}

#[test]
fn stop_client_tcp_wants_the_byte_1() {
    let ack = reply(0x2E, &[1]);
    let (mut handler, peer) = engine(&[&[], &ack]);
    assert_eq!(handler.stop_client_tcp(5, &TransportMode::Tcp), Ok(()));
    assert_eq!(peer.borrow().transactions()[0], vec![0xE0, 0x2E, 0x01, 1, 5, 0xEE, 0xFF, 0xFF]);
    let nack = reply(0x2E, &[0]);
    let (mut handler, _) = engine(&[&[], &nack]);
    assert_eq!(
        handler.stop_client_tcp(5, &TransportMode::Tcp),
        Err(Error::Network(NetworkError::DisconnectFailed))
    );
}

#[test]
fn get_client_state_tcp_decodes_the_state_byte() {
    let answer = reply(0x2F, &[4]);
    let (mut handler, peer) = engine(&[&[], &answer]);
    assert_eq!(handler.get_client_state_tcp(1), Ok(ConnectionState::Established));
    assert_eq!(peer.borrow().transactions()[0], vec![0xE0, 0x2F, 0x01, 1, 1, 0xEE, 0xFF, 0xFF]);
}

#[test]
fn send_data_sends_both_parameters_with_a_prefix_of_two_bytes() {
    let answer = reply(0x44, &[5]);
    let (mut handler, peer) = engine(&[&[], &answer]);
    assert_eq!(handler.send_data("hello", 3), Ok([5]));
    let mut request = vec![0xE0, 0x44, 0x02, 0, 1, 3, 0, 5];
    request.extend_from_slice(b"hello");
    request.extend_from_slice(&[0xEE, 0xFF, 0xFF]);
    assert_eq!(peer.borrow().transactions()[0], request);
    let data = "d".repeat(65536);
    let (mut handler, peer) = engine(&[]);
    assert_eq!(handler.send_data(&data, 3), Err(protocol(ProtocolError::PayloadTooLarge)));
    assert!(peer.borrow().seen.is_empty());
}

#[test]
fn avail_data_tcp_reads_the_length_low_byte_first() {
    let answer = reply(0x2B, &[0x2C, 0x01]);
    let (mut handler, peer) = engine(&[&[], &answer]);
    assert_eq!(handler.avail_data_tcp(7), Ok(300));
    assert_eq!(peer.borrow().transactions()[0], vec![0xE0, 0x2B, 0x01, 1, 7, 0xEE, 0xFF, 0xFF]);
}

#[test]
fn avail_data_tcp_reads_5744_as_5743() {
    let answer = reply(0x2B, &[0x70, 0x16]);
    let (mut handler, _) = engine(&[&[], &answer]);
    assert_eq!(handler.avail_data_tcp(7), Ok(5743));
    let answer = reply(0x2B, &[0x71, 0x16]);
    let (mut handler, _) = engine(&[&[], &answer]);
    assert_eq!(handler.avail_data_tcp(7), Ok(5745));
    let answer = reply(0x2B, &[0x6F, 0x16]);
    let (mut handler, _) = engine(&[&[], &answer]);
    assert_eq!(handler.avail_data_tcp(7), Ok(5743));
}

#[test]
fn get_data_buf_tcp_asks_with_the_length_most_significant_byte_first() {
    let answer = long_reply(0x45, &[1, 2, 3, 4]);
    let (mut handler, peer) = engine(&[&[], &answer]);
    assert_eq!(handler.get_data_buf_tcp(7, 5743), Ok((4, buffer_with(&[1, 2, 3, 4]))));
    assert_eq!(
        peer.borrow().transactions()[0],
        vec![0xE0, 0x45, 0x02, 0, 1, 7, 0, 2, 0x16, 0x6F, 0xEE, 0xFF]
    );
    assert_released(&peer);
}

#[test]
fn bulk_tcp_receive() {
    let nothing = reply(0x2B, &[0, 0]);
    let waiting = reply(0x2B, &[0x70, 0x16]);
    let first: Vec<u8> = (0..2872u32).map(|i| (i % 250) as u8 + 1).collect();
    let second: Vec<u8> = (0..2872u32).map(|i| (i % 199) as u8 + 2).collect();
    let first_chunk = long_reply(0x45, &first);
    let second_chunk = long_reply(0x45, &second);
    let (mut handler, peer) =
        engine(&[&[], &nothing, &[], &waiting, &[], &first_chunk, &[], &second_chunk]);
    let mut delay = ScriptedDelay(peer.clone());

    assert_eq!(handler.receive_data(7, &mut delay), Ok(None));
    assert_eq!(peer.borrow().transactions().len(), 2);
    let buffer = handler.receive_data(7, &mut delay).ok().unwrap().unwrap();

    let mut expected = [0u8; MAX_NINA_RESPONSE_LENGTH];
    expected[..2871].copy_from_slice(&first[..2871]);
    expected[2872..5743].copy_from_slice(&second[..2871]);
    assert!(buffer == expected);
    assert_eq!(buffer[2871], 0);
    assert_eq!(buffer[5743], 0);

    let peer = peer.borrow();
    assert_eq!(peer.count(Seen::Delay(50)), 2);
    assert_eq!(peer.seen[0], Seen::Delay(50));
    let second_poll = peer.seen.iter().rposition(|seen| *seen == Seen::Delay(50)).unwrap();
    assert_eq!(peer.seen[second_poll - 1], Seen::Deselect);
    assert_eq!(peer.seen[second_poll + 1], Seen::Select);
    let transactions = peer.transactions();
    assert_eq!(transactions.len(), 8);
    let ask = vec![0xE0, 0x45, 0x02, 0, 1, 7, 0, 2, 0x16, 0x6F, 0xEE, 0xFF];
    assert_eq!(transactions[4], ask);
    assert_eq!(transactions[6], ask);
    assert!(!peer.selected);
}

#[test]
fn receive_data_stops_at_an_empty_chunk() {
    let waiting = reply(0x2B, &[10, 0]);
    let chunk = long_reply(0x45, &[1, 2, 3, 4]);
    let empty = long_reply(0x45, &[]);
    let (mut handler, peer) = engine(&[&[], &waiting, &[], &chunk, &[], &empty]);
    let mut delay = ScriptedDelay(peer.clone());
    let buffer = handler.receive_data(7, &mut delay).ok().unwrap().unwrap();
    assert!(buffer == buffer_with(&[1, 2, 3]));
    assert_eq!(peer.borrow().transactions().len(), 6);
    assert_released(&peer);
}

#[test]
fn receive_data_drops_what_the_buffer_has_no_room_for() {
    let chunk: Vec<u8> = vec![0xAB; 5000];
    let answer = long_reply(0x45, &chunk);
    let (mut handler, peer) = engine(&[&[], &answer, &[], &answer]);
    let buffer = handler.read_available(7, 6000).ok().unwrap();
    let mut expected = [0u8; MAX_NINA_RESPONSE_LENGTH];
    expected[..4999].copy_from_slice(&chunk[..4999]);
    for byte in expected[5000..].iter_mut() {
        *byte = 0xAB;
    }
    assert!(buffer == expected);
    assert_eq!(peer.borrow().transactions().len(), 4);
}

#[test]
fn receive_data_passes_a_failure_on() {
    let waiting = reply(0x2B, &[10, 0]);
    let (mut handler, peer) = engine(&[&[], &waiting, &[], &[0xEF, 0, 0]]);
    let mut delay = ScriptedDelay(peer.clone());
    assert_eq!(
        handler.receive_data(7, &mut delay),
        Err(protocol(ProtocolError::NinaProtocolVersionMismatch))
    );
    assert_released(&peer);
    let (mut handler, peer) = engine(&[&[], &[0xE0, 0xAB, 0x01, 0x09]]);
    let mut delay = ScriptedDelay(peer.clone());
    assert_eq!(handler.receive_data(7, &mut delay), Err(protocol(ProtocolError::TooManyParameters)));
    assert_released(&peer);
}

#[test]
fn read_available_fetches_nothing_when_nothing_is_available() {
    let (mut handler, peer) = engine(&[]);
    assert!(handler.read_available(7, 0).ok().unwrap() == [0u8; MAX_NINA_RESPONSE_LENGTH]);
    assert!(peer.borrow().seen.is_empty());
}

#[test]
fn init_and_reset_are_passed_on_to_the_control_lines() {
    let (mut handler, peer) = engine(&[]);
    let mut delay = ScriptedDelay(peer.clone());
    assert_eq!(handler.init(), Ok(()));
    assert_eq!(handler.reset(&mut delay), Ok(()));
    assert_eq!(peer.borrow().seen, vec![Seen::Init, Seen::Reset, Seen::Delay(10), Seen::Delay(750)]);
    let (_bus, _pins) = handler.release();
}
