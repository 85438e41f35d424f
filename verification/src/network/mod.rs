pub mod connection;

use crate::protocol::command::{bytes_list, opt_bytes, opt_bytes_list};
use vstd::prelude::*;

verus! {

/// A pub/sub operation for the pub/sub layer to carry out.
#[derive(Debug, Clone, PartialEq, Eq)]
pub enum PubSubOp {
    Subscribe(Vec<Vec<u8>>),
    Unsubscribe(Option<Vec<Vec<u8>>>),
    PSubscribe(Vec<Vec<u8>>),
    PUnsubscribe(Option<Vec<Vec<u8>>>),
    Publish { channel: Vec<u8>, message: Vec<u8> },
    PubSubChannels { pattern: Option<Vec<u8>> },
    PubSubNumSub { channels: Vec<Vec<u8>> },
    PubSubNumPat,
}

/// A pub/sub operation with its byte strings as sequences.
pub enum PubSubOpView {
    Subscribe(Seq<Seq<u8>>),
    Unsubscribe(Option<Seq<Seq<u8>>>),
    PSubscribe(Seq<Seq<u8>>),
    PUnsubscribe(Option<Seq<Seq<u8>>>),
    Publish { channel: Seq<u8>, message: Seq<u8> },
    PubSubChannels { pattern: Option<Seq<u8>> },
    PubSubNumSub { channels: Seq<Seq<u8>> },
    PubSubNumPat,
}

impl View for PubSubOp {
    type V = PubSubOpView;

    open spec fn view(&self) -> PubSubOpView {
        match *self {
            PubSubOp::Subscribe(x) => PubSubOpView::Subscribe(bytes_list(x@)),
            PubSubOp::Unsubscribe(x) => PubSubOpView::Unsubscribe(opt_bytes_list(x)),
            PubSubOp::PSubscribe(x) => PubSubOpView::PSubscribe(bytes_list(x@)),
            PubSubOp::PUnsubscribe(x) => PubSubOpView::PUnsubscribe(opt_bytes_list(x)),
            PubSubOp::Publish { channel, message } => PubSubOpView::Publish {
                channel: channel@,
                message: message@,
            },
            PubSubOp::PubSubChannels { pattern } => PubSubOpView::PubSubChannels {
                pattern: opt_bytes(pattern),
            },
            PubSubOp::PubSubNumSub { channels } => PubSubOpView::PubSubNumSub {
                channels: bytes_list(channels@),
            },
            PubSubOp::PubSubNumPat => PubSubOpView::PubSubNumPat,
        }
    }
}

} // verus!
