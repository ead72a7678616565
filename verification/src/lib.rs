//! A streaming decoder for terminal input.
//!
//! Terminal keyboards and mice report themselves as a raw byte stream of
//! ANSI/VT escape sequences. This crate turns that stream into discrete,
//! typed input events: key presses, mouse presses and releases, and an
//! `Unsupported` fallback that carries the exact bytes of any sequence the
//! grammar does not recognise. Alongside every event the decoder reports
//! the raw bytes consumed, and concatenating those raw captures reproduces
//! the input byte for byte.

mod keys;
mod source;
mod event;
mod decode;
mod events;
mod input;

pub use decode::parse_event;
pub use event::Event;
pub use event::EventView;
pub use events::Events;
pub use events::EventsAndRaw;
pub use input::Keys;
pub use input::TermRead;
pub use input::TermReadEventsAndRaw;
pub use keys::Key;
pub use keys::MouseButton;
pub use keys::MouseEvent;
pub use source::ByteSource;
pub use source::ReadError;
