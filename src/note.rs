//! Decoding of raw MIDI channel-voice messages.
use vstd::prelude::*;

verus! {

/// A decoded MIDI channel-voice event.
#[derive(Debug, Copy, Clone, PartialEq, Eq, Structural, Hash)]
pub enum Note {
    On { channel: u8, note: u8, velocity: u8 },
    Off { channel: u8, note: u8 },
    ControlChange { channel: u8, controller: u8, value: u8 },
}

/// The event that a message decodes to, if any.
///
/// The channel is the low nibble of the status byte and the command its high
/// nibble. Command 8 is a note-off; command 9 is a note-on, or a note-off when
/// its velocity byte is 0; command 11 is a control change. Every other command,
/// and any message too short for its command, decodes to no event.
pub open spec fn decode(m: Seq<u8>) -> Option<Note> {
    if m.len() < 2 {
        None
    } else {
        let channel = (m[0] % 16) as u8;
        let command = m[0] / 16;
        if command == 8 {
            Some(Note::Off { channel, note: m[1] })
        } else if command == 9 && m.len() >= 3 {
            if m[2] == 0 {
                Some(Note::Off { channel, note: m[1] })
            } else {
                Some(Note::On { channel, note: m[1], velocity: m[2] })
            }
        } else if command == 11 && m.len() >= 3 {
            Some(Note::ControlChange { channel, controller: m[1], value: m[2] })
        } else {
            None
        }
    }
}

impl Note {
    /// Decodes one raw MIDI message; see [`decode`].
    pub fn from_buffer(message: &[u8]) -> (r: Option<Note>)
        ensures
            r == decode(message@),
    {
        if message.len() < 2 {
            return None;
        }
        let status = message[0];
        assert(status & 15 == status % 16 && status >> 4 == status / 16) by (bit_vector);
        let channel = status & 15;
        let command = status >> 4;
        if command == 8 {
            Some(Note::Off { channel, note: message[1] })
        } else if command == 9 && message.len() >= 3 {
            if message[2] == 0 {
                Some(Note::Off { channel, note: message[1] })
            } else {
                Some(Note::On { channel, note: message[1], velocity: message[2] })
            }
        } else if command == 11 && message.len() >= 3 {
            Some(Note::ControlChange { channel, controller: message[1], value: message[2] })
        } else {
            None
        }
    }
}

} // verus!
