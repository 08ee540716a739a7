//! The command vocabulary: decoding a request frame into a command, and
//! applying a command to a store.
//!
//! A request arrives as an array frame of bulk strings — `["GET", key]` or
//! `["SET", key, value]` — decoded from the wire by the codec or assembled
//! in memory. Anything else is unsupported: this core's command surface is
//! deliberately just `GET` and `SET`, and an unsupported command is a fatal
//! condition for the connection that sent it, not a recoverable error.

use vstd::prelude::*;

use crate::frame::Frame;
use crate::frame::SpecFrame;
use crate::frame::encodable;
use crate::store::Store;

verus! {

/// A decoded request: read one key (`GET`), or bind one key to a value
/// (the wire command `SET`, carried by the `Put` variant).
#[derive(Debug, PartialEq, Eq)]
pub enum Command {
    Get { key: Vec<u8> },
    Put { key: Vec<u8>, value: Vec<u8> },
}

/// The mathematical model of a command.
pub enum SpecCommand {
    Get(Seq<u8>),
    Put(Seq<u8>, Seq<u8>),
}

impl View for Command {
    type V = SpecCommand;

    open spec fn view(&self) -> SpecCommand {
        match self {
            Command::Get { key } => SpecCommand::Get(key@),
            Command::Put { key, value } => SpecCommand::Put(key@, value@),
        }
    }
}

/// The name of the read command, `GET`, as bytes.
pub open spec fn get_name() -> Seq<u8> {
    seq![71u8, 69u8, 84u8]
}

/// The name of the write command, `SET`, as bytes.
pub open spec fn set_name() -> Seq<u8> {
    seq![83u8, 69u8, 84u8]
}

/// The command a frame denotes, if any: an array of two bulk strings
/// `["GET", key]`, or of three, `["SET", key, value]`. Every other frame
/// denotes no command.
pub open spec fn command_of(f: Frame) -> Option<SpecCommand> {
    match f {
        Frame::Array(items) => {
            if items@.len() == 2 {
                match (items@[0], items@[1]) {
                    (Frame::Bulk(name), Frame::Bulk(key)) => {
                        if name@ == get_name() {
                            Some(SpecCommand::Get(key@))
                        } else {
                            None
                        }
                    },
                    _ => None,
                }
            } else if items@.len() == 3 {
                match (items@[0], items@[1], items@[2]) {
                    (Frame::Bulk(name), Frame::Bulk(key), Frame::Bulk(value)) => {
                        if name@ == set_name() {
                            Some(SpecCommand::Put(key@, value@))
                        } else {
                            None
                        }
                    },
                    _ => None,
                }
            } else {
                None
            }
        },
        _ => None,
    }
}

/// Why a frame failed to decode into a command: the command surface of
/// this core is just `GET` and `SET`.
#[derive(Debug, PartialEq, Eq)]
pub enum CommandError {
    Unsupported,
}

/// Decodes a request frame into a command, succeeding exactly on the
/// frames that denote one.
pub fn from_frame(f: Frame) -> (r: Result<Command, CommandError>)
    ensures
        match r {
            Ok(c) => command_of(f) == Some(c@),
            Err(_) => command_of(f) is None,
        },
{
    match f {
        Frame::Array(mut items) => {
            if items.len() == 2 {
                let ghost items0 = items@;
                let key_frame = match items.pop() {
                    Some(kf) => kf,
                    None => {
                        proof {
                            assert(false);
                        }
                        vstd::pervasive::unreached()
                    },
                };
                let name_frame = match items.pop() {
                    Some(nf) => nf,
                    None => {
                        proof {
                            assert(false);
                        }
                        vstd::pervasive::unreached()
                    },
                };
                proof {
                    assert(name_frame == items0[0]);
                    assert(key_frame == items0[1]);
                }
                match (name_frame, key_frame) {
                    (Frame::Bulk(name), Frame::Bulk(key)) => {
                        if name.len() == 3 && name[0] == 71 && name[1] == 69 && name[2] == 84 {
                            proof {
                                assert(name@ =~= get_name());
                            }
                            Ok(Command::Get { key })
                        } else {
                            proof {
                                if name@ == get_name() {
                                    assert(name@[0] == 71u8 && name@[1] == 69u8 && name@[2]
                                        == 84u8);
                                    assert(false);
                                }
                            }
                            Err(CommandError::Unsupported)
                        }
                    },
                    _ => Err(CommandError::Unsupported),
                }
            } else if items.len() == 3 {
                let ghost items0 = items@;
                let value_frame = match items.pop() {
                    Some(vf) => vf,
                    None => {
                        proof {
                            assert(false);
                        }
                        vstd::pervasive::unreached()
                    },
                };
                let key_frame = match items.pop() {
                    Some(kf) => kf,
                    None => {
                        proof {
                            assert(false);
                        }
                        vstd::pervasive::unreached()
                    },
                };
                let name_frame = match items.pop() {
                    Some(nf) => nf,
                    None => {
                        proof {
                            assert(false);
                        }
                        vstd::pervasive::unreached()
                    },
                };
                proof {
                    assert(name_frame == items0[0]);
                    assert(key_frame == items0[1]);
                    assert(value_frame == items0[2]);
                }
                match (name_frame, key_frame, value_frame) {
                    (Frame::Bulk(name), Frame::Bulk(key), Frame::Bulk(value)) => {
                        if name.len() == 3 && name[0] == 83 && name[1] == 69 && name[2] == 84 {
                            proof {
                                assert(name@ =~= set_name());
                            }
                            Ok(Command::Put { key, value })
                        } else {
                            proof {
                                if name@ == set_name() {
                                    assert(name@[0] == 83u8 && name@[1] == 69u8 && name@[2]
                                        == 84u8);
                                    assert(false);
                                }
                            }
                            Err(CommandError::Unsupported)
                        }
                    },
                    _ => Err(CommandError::Unsupported),
                }
            } else {
                Err(CommandError::Unsupported)
            }
        },
        _ => Err(CommandError::Unsupported),
    }
}

/// The `OK` acknowledgement text.
pub open spec fn ok_text() -> Seq<u8> {
    seq![79u8, 75u8]
}

/// Applies one command to the store and produces the response frame:
/// `SET` binds the key and answers `Simple("OK")`; `GET` leaves the store
/// unchanged and answers the bound value as a bulk string, or null when
/// the key is absent. The response is always encodable.
pub fn apply(store: &mut Store, cmd: Command) -> (resp: Frame)
    requires
        old(store).wf(),
    ensures
        final(store).wf(),
        final(store).shard_count() == old(store).shard_count(),
        match cmd {
            Command::Put { key, value } => final(store).contents() == old(
                store,
            ).contents().insert(key@, value@) && resp@ == SpecFrame::Simple(ok_text()),
            Command::Get { key } => final(store).contents() == old(store).contents() && (
            if old(store).contents().contains_key(key@) {
                resp@ == SpecFrame::Bulk(old(store).contents()[key@])
            } else {
                resp@ == SpecFrame::Null
            }),
        },
        encodable(resp@),
{
    match cmd {
        Command::Put { key, value } => {
            store.set(key.as_slice(), value);
            let mut text: Vec<u8> = Vec::new();
            text.push(79);
            text.push(75);
            proof {
                assert(text@ =~= ok_text());
            }
            Frame::Simple(text)
        },
        Command::Get { key } => {
            match store.get(key.as_slice()) {
                Some(v) => {
                    let n = v.len();
                    proof {
                        assert(v@.len() == n <= u64::MAX);
                    }
                    Frame::Bulk(v)
                },
                None => Frame::Null,
            }
        },
    }
}

} // verus!
