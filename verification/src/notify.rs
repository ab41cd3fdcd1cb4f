//! Telling listeners what changed.
//!
//! A notice goes out after a callback has changed the store, and only then.
//! It is sent once, one way, and a notice that cannot be delivered is dropped:
//! the callback that caused it never learns of it.

use crate::engine::Operation;
use crate::errors::Errno;
use crate::names::copy_bytes;
use vstd::prelude::*;

verus! {

/// The two ways in which a notice reaches its listeners.
#[derive(Clone, Copy, Debug, PartialEq, Eq, Structural)]
pub enum Sink {
    /// A notification on the desktop, raised by the serving process itself.
    Desktop,
    /// A socket on which a companion process listens.
    Socket,
}

/// What listeners are told: which kind of change was made, and in which
/// collection.
pub struct Notice {
    pub operation: Operation,
    pub collection: Vec<u8>,
}

/// A notice as a mathematical value.
pub struct NoticeView {
    pub operation: Operation,
    pub collection: Seq<u8>,
}

impl View for Notice {
    type V = NoticeView;

    open spec fn view(&self) -> NoticeView {
        NoticeView { operation: self.operation, collection: self.collection@ }
    }
}

/// The channel of one mount: its sink, chosen once, and what became of the
/// notices that were handed to it.
#[derive(Clone, Copy, Debug, PartialEq, Eq, Structural)]
pub struct Channel {
    pub sink: Sink,
    /// How many notices were delivered.
    pub delivered: u64,
    /// How many notices were dropped.
    pub dropped: u64,
}

/// The byte that stands for a kind of change on the wire.
pub open spec fn operation_code(operation: Operation) -> u8 {
    match operation {
        Operation::CreateTag => 1,
        Operation::RemoveTag => 2,
        Operation::CreateAssignment => 3,
        Operation::RemoveAssignment => 4,
        Operation::RenameAssignment => 5,
    }
}

/// A notice on the wire: the byte of its kind, then the name of the
/// collection.
pub open spec fn encoded(notice: NoticeView) -> Seq<u8> {
    seq![operation_code(notice.operation)] + notice.collection
}

/// The notice that bytes on the wire stand for, if they stand for one.
pub open spec fn decoded(bytes: Seq<u8>) -> Option<NoticeView> {
    if bytes.len() == 0 || bytes[0] < 1 || bytes[0] > 5 {
        None
    } else {
        Some(
            NoticeView {
                operation: if bytes[0] == 1 {
                    Operation::CreateTag
                } else if bytes[0] == 2 {
                    Operation::RemoveTag
                } else if bytes[0] == 3 {
                    Operation::CreateAssignment
                } else if bytes[0] == 4 {
                    Operation::RemoveAssignment
                } else {
                    Operation::RenameAssignment
                },
                collection: bytes.skip(1),
            },
        )
    }
}

/// The sink is chosen by how the mount runs: a mount in the foreground talks
/// to the companion process over the socket, a mount in the background
/// raises the notifications itself.
pub open spec fn sink_for(foreground: bool) -> Sink {
    if foreground {
        Sink::Socket
    } else {
        Sink::Desktop
    }
}

/// What is read from the wire is what was written to it.
pub proof fn lemma_wire_round_trip(notice: NoticeView)
    ensures
        decoded(encoded(notice)) == Some(notice),
{
    assert(encoded(notice).skip(1) =~= notice.collection);
}

impl Channel {
    /// The channel of a mount, with the sink that goes with how it runs.
    pub fn open(foreground: bool) -> (channel: Channel)
        ensures
            channel == (Channel { sink: sink_for(foreground), delivered: 0, dropped: 0 }),
    {
        Channel {
            sink: if foreground {
                Sink::Socket
            } else {
                Sink::Desktop
            },
            delivered: 0,
            dropped: 0,
        }
    }

    /// Records what became of a notice. A notice that could not be
    /// delivered is counted and forgotten: nothing is handed back, so
    /// nothing can reach the callback. The sink never changes.
    pub fn settle(&mut self, delivered: bool)
        ensures
            final(self).sink == old(self).sink,
            final(self).delivered == if delivered && old(self).delivered < u64::MAX {
                (old(self).delivered + 1) as u64
            } else {
                old(self).delivered
            },
            final(self).dropped == if !delivered && old(self).dropped < u64::MAX {
                (old(self).dropped + 1) as u64
            } else {
                old(self).dropped
            },
    {
        if delivered {
            if self.delivered < u64::MAX {
                self.delivered = self.delivered + 1;
            }
        } else {
            if self.dropped < u64::MAX {
                self.dropped = self.dropped + 1;
            }
        }
    }
}

/// The notice that goes out for the answer of a callback: one for a change
/// that was made, none for a failure and none where nothing changed.
pub fn notice_for(reply: &Result<Option<Operation>, Errno>, collection: &[u8]) -> (notice: Option<
    Notice,
>)
    ensures
        match *reply {
            Ok(Some(operation)) => notice matches Some(n) && n@ == (NoticeView {
                operation,
                collection: collection@,
            }),
            _ => notice.is_none(),
        },
{
    match reply {
        Ok(Some(operation)) => Some(
            Notice { operation: *operation, collection: copy_bytes(collection) },
        ),
        _ => None,
    }
}

/// Writes a notice for the wire.
pub fn encode(notice: &Notice) -> (bytes: Vec<u8>)
    ensures
        bytes@ == encoded(notice@),
{
    let mut out: Vec<u8> = Vec::new();
    out.push(
        match notice.operation {
            Operation::CreateTag => 1,
            Operation::RemoveTag => 2,
            Operation::CreateAssignment => 3,
            Operation::RemoveAssignment => 4,
            Operation::RenameAssignment => 5,
        },
    );
    let mut i: usize = 0;
    let ghost head = out@;
    while i < notice.collection.len()
        invariant
            i <= notice.collection.len(),
            out@ == head + notice.collection@.take(i as int),
        decreases notice.collection.len() - i,
    {
        out.push(notice.collection[i]);
        i += 1;
        assert(out@ =~= head + notice.collection@.take(i as int));
    }
    assert(notice.collection@.take(notice.collection.len() as int) =~= notice.collection@);
    out
}

/// Reads a notice from the wire. Bytes that do not start with the byte of a
/// kind of change stand for no notice.
pub fn decode(bytes: &[u8]) -> (notice: Option<Notice>)
    ensures
        match decoded(bytes@) {
            Some(n) => notice matches Some(read) && read@ == n,
            None => notice.is_none(),
        },
{
    if bytes.len() == 0 {
        return None;
    }
    let operation = match bytes[0] {
        1 => Operation::CreateTag,
        2 => Operation::RemoveTag,
        3 => Operation::CreateAssignment,
        4 => Operation::RemoveAssignment,
        5 => Operation::RenameAssignment,
        _ => {
            return None;
        },
    };
    let mut collection: Vec<u8> = Vec::new();
    let mut i: usize = 1;
    assert(bytes@.subrange(1, 1) =~= Seq::<u8>::empty());
    while i < bytes.len()
        invariant
            1 <= i <= bytes.len(),
            collection@ == bytes@.subrange(1, i as int),
        decreases bytes.len() - i,
    {
        collection.push(bytes[i]);
        i += 1;
        assert(collection@ =~= bytes@.subrange(1, i as int));
    }
    assert(bytes@.subrange(1, bytes.len() as int) =~= bytes@.skip(1));
    Some(Notice { operation, collection })
}

} // verus!
