//! MIDI channel voice messages and their three-byte wire form.

use vstd::prelude::*;

verus! {

/// A MIDI channel voice message, without its channel.
///
/// Data values are seven bits wide; a pitch bend is fourteen bits wide.
#[derive(Clone, Copy, Debug, PartialEq, Eq, Structural)]
pub enum MidiMessage {
    /// Stop playing a note.
    NoteOff { key: u8, vel: u8 },
    /// Start playing a note. With velocity 0 it stands for a note-off.
    NoteOn { key: u8, vel: u8 },
    /// Change the pressure on a sounding note.
    Aftertouch { key: u8, vel: u8 },
    /// Set a controller to a value.
    Controller { controller: u8, value: u8 },
    /// Select a program.
    ProgramChange { program: u8 },
    /// Change the pressure on the whole channel.
    ChannelAftertouch { vel: u8 },
    /// Bend the pitch of the whole channel.
    PitchBend { bend: u16 },
}

impl MidiMessage {
    /// Every data value fits its width.
    pub open spec fn wf(self) -> bool {
        match self {
            MidiMessage::NoteOff { key, vel } => key < 0x80 && vel < 0x80,
            MidiMessage::NoteOn { key, vel } => key < 0x80 && vel < 0x80,
            MidiMessage::Aftertouch { key, vel } => key < 0x80 && vel < 0x80,
            MidiMessage::Controller { controller, value } => controller < 0x80 && value < 0x80,
            MidiMessage::ProgramChange { program } => program < 0x80,
            MidiMessage::ChannelAftertouch { vel } => vel < 0x80,
            MidiMessage::PitchBend { bend } => bend < 0x4000,
        }
    }

    /// The upper half of the status byte that announces this kind of message.
    pub open spec fn status_nibble(self) -> int {
        match self {
            MidiMessage::NoteOff { .. } => 0x8,
            MidiMessage::NoteOn { .. } => 0x9,
            MidiMessage::Aftertouch { .. } => 0xA,
            MidiMessage::Controller { .. } => 0xB,
            MidiMessage::ProgramChange { .. } => 0xC,
            MidiMessage::ChannelAftertouch { .. } => 0xD,
            MidiMessage::PitchBend { .. } => 0xE,
        }
    }

    /// The first data byte on the wire.
    pub open spec fn first_data(self) -> int {
        match self {
            MidiMessage::NoteOff { key, .. } => key as int,
            MidiMessage::NoteOn { key, .. } => key as int,
            MidiMessage::Aftertouch { key, .. } => key as int,
            MidiMessage::Controller { controller, .. } => controller as int,
            MidiMessage::ProgramChange { program } => program as int,
            MidiMessage::ChannelAftertouch { vel } => vel as int,
            MidiMessage::PitchBend { bend } => bend as int % 0x80,
        }
    }

    /// The second data byte on the wire; 0 for a message that has only one.
    pub open spec fn second_data(self) -> int {
        match self {
            MidiMessage::NoteOff { vel, .. } => vel as int,
            MidiMessage::NoteOn { vel, .. } => vel as int,
            MidiMessage::Aftertouch { vel, .. } => vel as int,
            MidiMessage::Controller { value, .. } => value as int,
            MidiMessage::ProgramChange { .. } => 0,
            MidiMessage::ChannelAftertouch { .. } => 0,
            MidiMessage::PitchBend { bend } => bend as int / 0x80,
        }
    }

    /// Whether every data value fits its width.
    pub fn is_valid(&self) -> (r: bool)
        ensures
            r == self.wf(),
    {
        match *self {
            MidiMessage::NoteOff { key, vel } => key < 0x80 && vel < 0x80,
            MidiMessage::NoteOn { key, vel } => key < 0x80 && vel < 0x80,
            MidiMessage::Aftertouch { key, vel } => key < 0x80 && vel < 0x80,
            MidiMessage::Controller { controller, value } => controller < 0x80 && value < 0x80,
            MidiMessage::ProgramChange { program } => program < 0x80,
            MidiMessage::ChannelAftertouch { vel } => vel < 0x80,
            MidiMessage::PitchBend { bend } => bend < 0x4000,
        }
    }
}

/// Number of data bytes that follow a channel status byte.
pub open spec fn data_len(status: u8) -> int {
    if status / 16 == 0xC || status / 16 == 0xD {
        1
    } else {
        2
    }
}

/// Whether three raw bytes hold one complete channel voice message: a status
/// byte from `0x80` to `0xEF`, then as many data bytes below `0x80` as the
/// status calls for. A byte beyond them is not looked at.
pub open spec fn is_channel_message(data: [u8; 3]) -> bool {
    &&& 0x80 <= data[0] <= 0xEF
    &&& data[1] < 0x80
    &&& data_len(data[0]) == 2 ==> data[2] < 0x80
}

/// The message that a status byte and two data bytes stand for.
pub open spec fn message_of(status: u8, d1: u8, d2: u8) -> MidiMessage {
    if status / 16 == 0x8 {
        MidiMessage::NoteOff { key: d1, vel: d2 }
    } else if status / 16 == 0x9 {
        MidiMessage::NoteOn { key: d1, vel: d2 }
    } else if status / 16 == 0xA {
        MidiMessage::Aftertouch { key: d1, vel: d2 }
    } else if status / 16 == 0xB {
        MidiMessage::Controller { controller: d1, value: d2 }
    } else if status / 16 == 0xC {
        MidiMessage::ProgramChange { program: d1 }
    } else if status / 16 == 0xD {
        MidiMessage::ChannelAftertouch { vel: d1 }
    } else {
        MidiMessage::PitchBend { bend: (d2 as int * 0x80 + d1 as int) as u16 }
    }
}

/// Channel and message held by three raw bytes, if they hold one.
pub open spec fn decoded(data: [u8; 3]) -> Option<(u8, MidiMessage)> {
    if is_channel_message(data) {
        Some((data[0] % 16, message_of(data[0], data[1], data[2])))
    } else {
        None
    }
}

/// The wire form of a message on a channel: status byte, then the data
/// bytes, the last one 0 where the message has a single data byte.
pub open spec fn encoded(channel: u8, message: MidiMessage) -> Seq<u8> {
    seq![
        (message.status_nibble() * 16 + channel as int) as u8,
        message.first_data() as u8,
        message.second_data() as u8,
    ]
}

/// Whether three raw bytes hold one complete channel voice message.
fn holds_channel_message(data: &[u8; 3]) -> (ok: bool)
    ensures
        ok == is_channel_message(*data),
{
    let status: u8 = data[0];
    let two: bool = !(status / 16 == 0xC || status / 16 == 0xD);
    0x80 <= status && status <= 0xEF && data[1] < 0x80 && (!two || data[2] < 0x80)
}

/// Decodes three raw bytes into a channel and a channel voice message.
///
/// Returns `None` exactly when the bytes are not one complete channel voice
/// message.
pub fn decode(data: &[u8; 3]) -> (r: Option<(u8, MidiMessage)>)
    ensures
        r == decoded(*data),
        r matches Some((channel, message)) ==> channel < 16 && message.wf(),
{
    if !holds_channel_message(data) {
        return None;
    }
    let status: u8 = data[0];
    let d1: u8 = data[1];
    let d2: u8 = data[2];
    let kind: u8 = status / 16;
    let message = if kind == 0x8 {
        MidiMessage::NoteOff { key: d1, vel: d2 }
    } else if kind == 0x9 {
        MidiMessage::NoteOn { key: d1, vel: d2 }
    } else if kind == 0xA {
        MidiMessage::Aftertouch { key: d1, vel: d2 }
    } else if kind == 0xB {
        MidiMessage::Controller { controller: d1, value: d2 }
    } else if kind == 0xC {
        MidiMessage::ProgramChange { program: d1 }
    } else if kind == 0xD {
        MidiMessage::ChannelAftertouch { vel: d1 }
    } else {
        let low: u16 = d1 as u16;
        let high: u16 = d2 as u16;
        MidiMessage::PitchBend { bend: high * 0x80 + low }
    };
    Some((status % 16, message))
}

/// Encodes a message on a channel into its three-byte wire form.
pub fn encode(channel: u8, message: MidiMessage) -> (data: [u8; 3])
    requires
        channel < 16,
        message.wf(),
    ensures
        data@ == encoded(channel, message),
        decoded(data) == Some((channel, message)),
{
    let (nibble, d1, d2): (u8, u8, u8) = match message {
        MidiMessage::NoteOff { key, vel } => (0x8, key, vel),
        MidiMessage::NoteOn { key, vel } => (0x9, key, vel),
        MidiMessage::Aftertouch { key, vel } => (0xA, key, vel),
        MidiMessage::Controller { controller, value } => (0xB, controller, value),
        MidiMessage::ProgramChange { program } => (0xC, program, 0),
        MidiMessage::ChannelAftertouch { vel } => (0xD, vel, 0),
        MidiMessage::PitchBend { bend } => (0xE, (bend % 0x80) as u8, (bend / 0x80) as u8),
    };
    let data: [u8; 3] = [nibble * 16 + channel, d1, d2];
    data
}

/// Decoding undoes encoding: the wire form of a valid message on a valid
/// channel decodes to that channel and that message.
pub proof fn lemma_decode_encode(channel: u8, message: MidiMessage, data: [u8; 3])
    requires
        channel < 16,
        message.wf(),
        data@ == encoded(channel, message),
    ensures
        decoded(data) == Some((channel, message)),
{
    assert(data[0] == data@[0]);
    assert(data[1] == data@[1]);
    assert(data[2] == data@[2]);
}

/// Encoding undoes decoding, up to the byte that the message does not use:
/// a decoded message encodes to the bytes it came from, with 0 in place of
/// an unused third byte.
pub proof fn lemma_encode_decode(data: [u8; 3])
    requires
        is_channel_message(data),
    ensures
        decoded(data) matches Some((channel, message)) && channel < 16 && message.wf()
            && encoded(channel, message) == seq![
            data[0],
            data[1],
            if data_len(data[0]) == 2 {
                data[2]
            } else {
                0u8
            },
        ],
{
}

} // verus!
