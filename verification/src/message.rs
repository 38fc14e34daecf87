//! What a frame from a registered client means.
//!
//! A frame is trimmed and then read as one of four commands:
//!
//! | frame                | command                         |
//! |----------------------|---------------------------------|
//! | `@<name> <text>`     | direct message to `<name>`      |
//! | `disconnect`         | close the session               |
//! | `/` and anything after it | list the connected users   |
//! | anything else        | broadcast                       |
//!
//! The rows are tried from the top.

use vstd::prelude::*;
use vstd::string::StringSliceAdditionalSpecFns;
use crate::text::{trimmed, trim, find_byte, find, leading_run, lemma_leading_run, bytes_eq,
    copy_range};

verus! {

/// Opens a direct message.
pub const AT_SIGN: u8 = 64;

/// Opens a directory query.
pub const SLASH: u8 = 47;

/// Parts a direct message's target from its text.
pub const SPACE: u8 = 32;

/// A command from a client.
#[derive(Clone, Debug, PartialEq, Eq)]
pub enum Message {
    /// Text for every other client.
    Broadcast { text: Vec<u8> },
    /// Text for the client called `target`.
    Direct { target: Vec<u8>, text: Vec<u8> },
    /// A request for the names of the connected clients.
    ListUsers,
    /// A request to close the session.
    Disconnect,
}

/// A [`Message`] as contracts see it.
pub enum MessageView {
    Broadcast { text: Seq<u8> },
    Direct { target: Seq<u8>, text: Seq<u8> },
    ListUsers,
    Disconnect,
}

impl View for Message {
    type V = MessageView;

    open spec fn view(&self) -> MessageView {
        match self {
            Message::Broadcast { text } => MessageView::Broadcast { text: text@ },
            Message::Direct { target, text } => MessageView::Direct {
                target: target@,
                text: text@,
            },
            Message::ListUsers => MessageView::ListUsers,
            Message::Disconnect => MessageView::Disconnect,
        }
    }
}

/// The word that closes a session.
pub open spec fn disconnect_word() -> Seq<u8> {
    "disconnect".spec_bytes()
}

/// The target of the direct message `line`: its first word, up to the first
/// space, without the `@` signs in front.
pub open spec fn direct_target(line: Seq<u8>) -> Seq<u8> {
    let word = line.take(find_byte(line, SPACE) as int);
    word.skip(leading_run(word, AT_SIGN) as int)
}

/// The text of the direct message `line`: what follows its first space, or
/// nothing if it holds no space.
pub open spec fn direct_text(line: Seq<u8>) -> Seq<u8> {
    if find_byte(line, SPACE) < line.len() {
        line.skip(find_byte(line, SPACE) as int + 1)
    } else {
        Seq::empty()
    }
}

/// The command that `frame` stands for.
pub open spec fn classified(frame: Seq<u8>) -> MessageView {
    let line = trimmed(frame);
    if line.len() > 0 && line[0] == AT_SIGN {
        MessageView::Direct { target: direct_target(line), text: direct_text(line) }
    } else if line == disconnect_word() {
        MessageView::Disconnect
    } else if line.len() > 0 && line[0] == SLASH {
        MessageView::ListUsers
    } else {
        MessageView::Broadcast { text: line }
    }
}

/// Reads `frame` as a command.
pub fn classify(frame: &[u8]) -> (m: Message)
    ensures
        m@ == classified(frame@),
{
    let line = trim(frame);
    if line.len() > 0 && line[0] == AT_SIGN {
        let space: usize = find(line.as_slice(), SPACE);
        let mut start: usize = 0;
        while start < space && line[start] == AT_SIGN
            invariant
                start <= space <= line@.len(),
                forall|j: int| 0 <= j < start ==> #[trigger] line@[j] == AT_SIGN,
            decreases space - start,
        {
            start += 1;
        }
        let target = copy_range(line.as_slice(), start, space);
        let text = if space < line.len() {
            copy_range(line.as_slice(), space + 1, line.len())
        } else {
            Vec::new()
        };
        proof {
            let word = line@.take(space as int);
            assert forall|j: int| 0 <= j < start implies #[trigger] word[j] == AT_SIGN by {
                assert(word[j] == line@[j]);
            }
            if start < word.len() {
                assert(word[start as int] == line@[start as int]);
            }
            lemma_leading_run(word, AT_SIGN, start as int);
            assert(target@ =~= direct_target(line@));
            assert(text@ =~= direct_text(line@));
        }
        Message::Direct { target, text }
    } else if bytes_eq(line.as_slice(), "disconnect".as_bytes()) {
        Message::Disconnect
    } else if line.len() > 0 && line[0] == SLASH {
        Message::ListUsers
    } else {
        Message::Broadcast { text: line }
    }
}

} // verus!
