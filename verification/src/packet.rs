//! uTP packets, as far as sending and connection bookkeeping read them.

use vstd::prelude::*;

verus! {

/// The kinds of packet.
#[derive(Clone, Copy, Debug, PartialEq, Eq, Structural)]
pub enum PacketType {
    Data,
    Fin,
    State,
    Reset,
    Syn,
}

/// The bits of a selective acknowledgement are sent in groups of this many.
pub const SELECTIVE_ACK_GROUP: usize = 32;

/// Which packets after a missing one have arrived.
///
/// The first bit stands for the packet two after the acknowledged one; the packet right after the
/// acknowledged one is taken to be missing.
#[derive(Clone, Debug, PartialEq, Eq)]
pub struct SelectiveAck {
    acked: Vec<bool>,
}

/// `bits` padded with `false` to whole groups.
pub open spec fn padded(bits: Seq<bool>) -> Seq<bool> {
    bits + Seq::new(
        (-(bits.len() as int) % (SELECTIVE_ACK_GROUP as int)) as nat,
        |i: int| false,
    )
}

impl View for SelectiveAck {
    type V = Seq<bool>;

    /// The bits, padding included.
    closed spec fn view(&self) -> Seq<bool> {
        self.acked@
    }
}

impl SelectiveAck {
    /// A selective acknowledgement of the given bits, padded with `false` to whole groups.
    pub fn new(acked: Vec<bool>) -> (selective_ack: Self)
        ensures
            selective_ack@ == padded(acked@),
    {
        let mut bits = acked;
        while bits.len() % SELECTIVE_ACK_GROUP != 0
            invariant
                acked@.len() <= bits@.len() <= padded(acked@).len(),
                bits@ == padded(acked@).take(bits@.len() as int),
            decreases padded(acked@).len() - bits@.len(),
        {
            bits.push(false);
        }
        SelectiveAck { acked: bits }
    }

    /// The bits, padding included.
    pub fn acked(&self) -> (bits: Vec<bool>)
        ensures
            bits@ == self@,
    {
        self.acked.clone()
    }
}

/// A uTP packet.
#[derive(Clone, Debug, PartialEq, Eq)]
pub struct Packet {
    pub packet_type: PacketType,
    pub conn_id: u16,
    pub ts_micros: u32,
    pub ts_diff_micros: u32,
    pub window_size: u32,
    pub seq_num: u16,
    pub ack_num: u16,
    pub selective_ack: Option<SelectiveAck>,
    pub payload: Vec<u8>,
}

impl Packet {
    /// The kind of packet.
    pub fn packet_type(&self) -> (packet_type: PacketType)
        ensures
            packet_type == self.packet_type,
    {
        self.packet_type
    }

    /// The connection identifier in the header.
    pub fn conn_id(&self) -> (conn_id: u16)
        ensures
            conn_id == self.conn_id,
    {
        self.conn_id
    }

    /// The packet's own sequence number.
    pub fn seq_num(&self) -> (seq_num: u16)
        ensures
            seq_num == self.seq_num,
    {
        self.seq_num
    }

    /// The sequence number that the packet acknowledges.
    pub fn ack_num(&self) -> (ack_num: u16)
        ensures
            ack_num == self.ack_num,
    {
        self.ack_num
    }
}

/// Padding keeps the bits, adds only clear ones, and adds as few as make whole groups.
pub proof fn law_padding(bits: Seq<bool>, i: int)
    ensures
        padded(bits).len() % 32 == 0,
        bits.len() <= padded(bits).len() < bits.len() + 32,
        0 <= i < bits.len() ==> padded(bits)[i] == bits[i],
        bits.len() <= i < padded(bits).len() ==> !padded(bits)[i],
{
}

} // verus!
