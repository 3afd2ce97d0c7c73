//! The terminal session: what the user has typed, what the child process has
//! drawn, and the decoder between the two. The session takes events and byte
//! chunks as plain values and hands back plain values; spawning the child,
//! moving bytes and putting pixels on a screen is left to its caller.

use vstd::prelude::*;
use crate::ast::{ParseError, ParsedAST, ParsedASTView, RgbaImage, asts_view};
use crate::deserializer::Decoder;
use crate::format::{decode, text_packet};
use crate::serializer::build_text;

verus! {

/// A key that is neither a letter nor a digit.
#[derive(Debug, PartialEq, Eq, Clone, Copy)]
pub enum SpecialKey {
    Escape,
    F1,
    F2,
    F3,
    F4,
    F5,
    F6,
    F7,
    F8,
    F9,
    F10,
    F11,
    F12,
    F13,
    F14,
    F15,
    F16,
    F17,
    F18,
    F19,
    F20,
    F21,
    F22,
    F23,
    F24,
    Snapshot,
    Scroll,
    Pause,
    Insert,
    Home,
    Delete,
    End,
    PageDown,
    PageUp,
    Left,
    Up,
    Right,
    Down,
    Back,
    Return,
    Space,
    Compose,
    Caret,
    Numlock,
    Numpad0,
    Numpad1,
    Numpad2,
    Numpad3,
    Numpad4,
    Numpad5,
    Numpad6,
    Numpad7,
    Numpad8,
    Numpad9,
    NumpadAdd,
    NumpadDivide,
    NumpadDecimal,
    NumpadComma,
    NumpadEnter,
    NumpadEquals,
    NumpadMultiply,
    NumpadSubtract,
    AbntC1,
    AbntC2,
    Apostrophe,
    Apps,
    Asterisk,
    At,
    Ax,
    Backslash,
    Calculator,
    Capital,
    Colon,
    Comma,
    Convert,
    Equals,
    Grave,
    Kana,
    Kanji,
    LAlt,
    LBracket,
    LControl,
    LShift,
    LWin,
    Mail,
    MediaSelect,
    MediaStop,
    Minus,
    Mute,
    MyComputer,
    NavigateForward,
    NavigateBackward,
    NextTrack,
    NoConvert,
    OEM102,
    Period,
    PlayPause,
    Plus,
    Power,
    PrevTrack,
    RAlt,
    RBracket,
    RControl,
    RShift,
    RWin,
    Semicolon,
    Slash,
    Sleep,
    Stop,
    Sysrq,
    Tab,
    Underline,
    Unlabeled,
    VolumeDown,
    VolumeUp,
    Wake,
    WebBack,
    WebFavorites,
    WebForward,
    WebHome,
    WebRefresh,
    WebSearch,
    WebStop,
    Yen,
    Copy,
    Paste,
    Cut,
}

/// What the window hands to the session.
#[derive(Debug, PartialEq, Eq, Clone, Copy)]
pub enum Event {
    RegularKey(char),
    SpecialKey(SpecialKey),
    Unknown,
}

/// An image for the renderer to paint with.
#[derive(Debug, PartialEq, Eq, Clone)]
pub struct Texture {
    pub image: RgbaImage,
}

/// The side of the square background texture, in pixels.
pub const BACKGROUND_SIDE: u32 = 100;

/// The colour of the background texture: a dark, opaque blue.
pub const BACKGROUND_PIXEL: [u8; 4] = [0, 0, 25, 255];

/// `String::push` of the standard library puts the character behind the
/// last one of the string.
pub assume_specification[ String::push ](text: &mut String, ch: char)
    ensures
        final(text)@ == old(text)@.push(ch),
;

/// The model of a [`Terminal`].
pub struct TerminalView {
    /// The characters typed so far.
    pub input: Seq<char>,
    /// The bytes from the child process that wait for the rest of their
    /// record.
    pub buffered: Seq<u8>,
    /// The instructions received so far, oldest first.
    pub rendering: Seq<ParsedASTView>,
}

/// One terminal session.
pub struct Terminal {
    input_buffer: String,
    deserializer: Decoder,
    rendering_buffer: Vec<ParsedAST>,
}

impl View for Terminal {
    type V = TerminalView;

    closed spec fn view(&self) -> TerminalView {
        TerminalView {
            input: self.input_buffer@,
            buffered: self.deserializer@,
            rendering: asts_view(self.rendering_buffer@),
        }
    }
}

impl Terminal {
    /// A session in which nothing was typed and nothing received.
    pub fn new() -> (terminal: Self)
        ensures
            terminal@ == (TerminalView {
                input: Seq::empty(),
                buffered: Seq::empty(),
                rendering: Seq::empty(),
            }),
    {
        let terminal = Terminal {
            input_buffer: String::new(),
            deserializer: Decoder::new(),
            rendering_buffer: Vec::new(),
        };
        assert(asts_view(terminal.rendering_buffer@) =~= Seq::empty());
        terminal
    }

    /// The texture that the terminal is painted on before anything is drawn.
    pub fn background() -> (texture: Texture)
        ensures
            texture.image@.width == BACKGROUND_SIDE,
            texture.image@.height == BACKGROUND_SIDE,
            texture.image@.pixels == Seq::new(
                40000,
                |i: int| BACKGROUND_PIXEL[i % 4],
            ),
    {
        Texture { image: RgbaImage::from_pixel(BACKGROUND_SIDE, BACKGROUND_SIDE, BACKGROUND_PIXEL) }
    }

    /// The characters typed so far.
    pub fn input_buffer(&self) -> (text: &String)
        ensures
            text@ == self@.input,
    {
        &self.input_buffer
    }

    /// The instructions received so far, oldest first.
    pub fn rendering_buffer(&self) -> (asts: &Vec<ParsedAST>)
        ensures
            asts_view(asts@) == self@.rendering,
    {
        &self.rendering_buffer
    }

    /// Takes an event from the window: a regular key is typed behind the
    /// input, anything else changes nothing.
    pub fn process_event(&mut self, event: Event)
        ensures
            final(self)@.input == match event {
                Event::RegularKey(c) => old(self)@.input.push(c),
                _ => old(self)@.input,
            },
            final(self)@.buffered == old(self)@.buffered,
            final(self)@.rendering == old(self)@.rendering,
    {
        match event {
            Event::RegularKey(c) => {
                self.input_buffer.push(c);
            },
            _ => {},
        }
    }

    /// The record that tells the child process what was typed so far.
    pub fn input_packet(&self) -> (bytes: Vec<u8>)
        ensures
            bytes@ == text_packet(self@.input),
    {
        build_text(self.input_buffer.clone())
    }

    /// Takes a chunk of the child process's output. The instructions of the
    /// records that are now whole go behind those received before, and their
    /// number is given back; on a malformed record nothing is added and the
    /// error is given back.
    pub fn receive(&mut self, bytes: Vec<u8>) -> (r: Result<usize, ParseError>)
        ensures
            final(self)@.input == old(self)@.input,
            final(self)@.buffered == decode(old(self)@.buffered + bytes@).rest,
            match decode(old(self)@.buffered + bytes@).result {
                Ok(asts) => r == Ok::<_, ParseError>(asts.len() as usize) && final(self)@.rendering
                    == old(self)@.rendering + asts,
                Err(e) => r == Err::<usize, _>(e) && final(self)@.rendering == old(
                    self,
                )@.rendering,
            },
    {
        match self.deserializer.feed(bytes) {
            Ok(mut asts) => {
                let count: usize = asts.len();
                let ghost before = self.rendering_buffer@;
                let ghost added = asts@;
                self.rendering_buffer.append(&mut asts);
                assert(asts_view(before + added) =~= asts_view(before) + asts_view(added));
                Ok(count)
            },
            Err(e) => Err(e),
        }
    }
}

} // verus!
