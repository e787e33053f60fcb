use vstd::prelude::*;
use crate::net::bytes::{read_u64_be, write_u64_be, u64_be_bytes, u64_from_be, lemma_u64_be_roundtrip};
use crate::net::result::Error;

verus! {

pub type UserId = u64;

/// Frame categories, as numbered on the wire.
#[derive(Clone, Copy, Debug, PartialEq, Eq, Structural)]
pub enum Category {
    Payload,
    Keepalive,
    ConnectionAccepted,
    ConnectionClosed,
}

/// The wire number of a category.
pub open spec fn category_code(cat: Category) -> u8 {
    match cat {
        Category::Payload => 0,
        Category::Keepalive => 1,
        Category::ConnectionAccepted => 2,
        Category::ConnectionClosed => 3,
    }
}

impl Category {
    /// The wire number of the category.
    pub fn code(self) -> (c: u8)
        ensures
            c == category_code(self),
    {
        match self {
            Category::Payload => 0,
            Category::Keepalive => 1,
            Category::ConnectionAccepted => 2,
            Category::ConnectionClosed => 3,
        }
    }
}

impl From<Category> for u8 {
    fn from(cat: Category) -> (c: u8) {
        cat.code()
    }
}

impl vstd::std_specs::convert::FromSpecImpl<Category> for u8 {
    open spec fn obeys_from_spec() -> bool {
        true
    }

    open spec fn from_spec(cat: Category) -> u8 {
        category_code(cat)
    }
}

/// Size of the payload of a payload frame.
#[derive(Debug, PartialEq, Eq, Structural)]
pub struct PayloadInfo(pub usize);

/// Frames used by the network layer itself.
#[derive(Debug, PartialEq, Eq, Structural)]
pub enum ControlFrame {
    Keepalive(UserId),
    ConnectionAccepted(UserId),
    ConnectionClosed(UserId),
}

/// A frame read off a channel.
#[derive(Debug, PartialEq, Eq, Structural)]
pub enum Frame {
    Control(ControlFrame),
    Payload(PayloadInfo),
}

/// The wire category of a control frame.
pub open spec fn control_category(frame: ControlFrame) -> u8 {
    match frame {
        ControlFrame::Keepalive(_) => 1,
        ControlFrame::ConnectionAccepted(_) => 2,
        ControlFrame::ConnectionClosed(_) => 3,
    }
}

/// The user carried by a control frame.
pub open spec fn control_user(frame: ControlFrame) -> UserId {
    match frame {
        ControlFrame::Keepalive(u) => u,
        ControlFrame::ConnectionAccepted(u) => u,
        ControlFrame::ConnectionClosed(u) => u,
    }
}

/// The frame that a buffer of the given category holds, when it holds one: a payload frame
/// covers the whole buffer, and a control frame carries a big-endian user id.
pub open spec fn spec_read_frame(buffer: Seq<u8>, category: u8) -> Option<Frame> {
    if category == 0 {
        Some(Frame::Payload(PayloadInfo(buffer.len() as usize)))
    } else if 1 <= category <= 3 && buffer.len() >= 8 {
        let user = u64_from_be(buffer);
        Some(Frame::Control(
            if category == 1 {
                ControlFrame::Keepalive(user)
            } else if category == 2 {
                ControlFrame::ConnectionAccepted(user)
            } else {
                ControlFrame::ConnectionClosed(user)
            },
        ))
    } else {
        None
    }
}

impl Frame {
    /// Parse the frame of the given category held in `buffer`.
    pub fn read(buffer: &[u8], category: u8) -> (r: Result<Frame, Error>)
        ensures
            category > 3 ==> r == Err::<Frame, Error>(Error::IncorrectCategory),
            category <= 3 ==> (r is Ok <==> spec_read_frame(buffer@, category) is Some),
            r matches Ok(f) ==> spec_read_frame(buffer@, category) == Some(f),
            1 <= category <= 3 && buffer@.len() < 8 ==> r matches Err(Error::Io(_)),
    {
        if category > 3 {
            return Err(Error::IncorrectCategory);
        }
        if category == 0 {
            return Ok(Frame::Payload(PayloadInfo(buffer.len())));
        }
        let user = match read_u64_be(buffer) {
            Ok(user) => user,
            Err(e) => {
                return Err(Error::from_io(e));
            },
        };
        let frame = if category == 1 {
            ControlFrame::Keepalive(user)
        } else if category == 2 {
            ControlFrame::ConnectionAccepted(user)
        } else {
            ControlFrame::ConnectionClosed(user)
        };
        Ok(Frame::Control(frame))
    }
}

impl ControlFrame {
    /// The wire category of the frame.
    pub fn category(&self) -> (c: u8)
        ensures
            c == control_category(*self),
    {
        match self {
            ControlFrame::Keepalive(_) => Category::Keepalive.code(),
            ControlFrame::ConnectionAccepted(_) => Category::ConnectionAccepted.code(),
            ControlFrame::ConnectionClosed(_) => Category::ConnectionClosed.code(),
        }
    }

    /// Write the frame's contents (the user id, big-endian) to the stream.
    pub fn write(self, stream: &mut Vec<u8>)
        ensures
            final(stream)@ == old(stream)@ + u64_be_bytes(control_user(self)),
    {
        match self {
            ControlFrame::Keepalive(user_id) => write_u64_be(stream, user_id),
            ControlFrame::ConnectionAccepted(user_id) => write_u64_be(stream, user_id),
            ControlFrame::ConnectionClosed(user_id) => write_u64_be(stream, user_id),
        }
    }
}

/// Reading back what a control frame wrote, under the frame's category, gives the frame.
pub proof fn law_control_frame_roundtrip(frame: ControlFrame)
    ensures
        spec_read_frame(u64_be_bytes(control_user(frame)), control_category(frame)) == Some(
            Frame::Control(frame),
        ),
{
    lemma_u64_be_roundtrip(control_user(frame));
}

} // verus!
