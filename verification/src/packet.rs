//! The packet record: one payload unit handed to or received from the
//! codec layer above this library.

use vstd::prelude::*;

verus! {

/// The mathematical contents of a packet.
pub struct PacketView {
    /// The payload bytes.
    pub data: Seq<u8>,
    /// Whether this packet begins its logical stream.
    pub begins: bool,
    /// Whether this packet ends its logical stream.
    pub ends: bool,
    /// The absolute granule position; -1 means undetermined.
    pub absgp: i64,
    /// The sequential number of the packet within its logical stream.
    pub index: u32,
}

/// One payload unit, owning its data bytes, together with the stream
/// position metadata carried alongside it.
#[derive(Debug)]
pub struct Packet {
    data: Vec<u8>,
    begins: bool,
    ends: bool,
    absgp: i64,
    index: u32,
}

impl View for Packet {
    type V = PacketView;

    closed spec fn view(&self) -> PacketView {
        PacketView {
            data: self.data@,
            begins: self.begins,
            ends: self.ends,
            absgp: self.absgp,
            index: self.index,
        }
    }
}

impl Packet {
    /// An empty packet: no data, no stream markers, granule position and
    /// index zero.
    pub fn new() -> (p: Packet)
        ensures
            p@.data.len() == 0,
            p@.begins == false,
            p@.ends == false,
            p@.absgp == 0,
            p@.index == 0,
    {
        Packet { data: Vec::new(), begins: false, ends: false, absgp: 0, index: 0 }
    }

    /// Build a packet from all of its parts.
    pub fn from_parts(data: Vec<u8>, begins: bool, ends: bool, absgp: i64, index: u32) -> (p:
        Packet)
        ensures
            p@ == (PacketView { data: data@, begins, ends, absgp, index }),
    {
        Packet { data, begins, ends, absgp, index }
    }

    /// The payload bytes.
    pub fn data(&self) -> (r: &[u8])
        ensures
            r@ == self@.data,
    {
        self.data.as_slice()
    }

    /// Replace the payload bytes.
    pub fn set_data(&mut self, data: Vec<u8>)
        ensures
            final(self)@ == (PacketView { data: data@, ..old(self)@ }),
    {
        self.data = data;
    }

    /// Whether this packet begins its logical stream.
    pub fn begins_logical_stream(&self) -> (r: bool)
        ensures
            r == self@.begins,
    {
        self.begins
    }

    /// Set whether this packet begins its logical stream.
    pub fn set_begins_local_stream(&mut self, begins_logical_stream: bool)
        ensures
            final(self)@ == (PacketView { begins: begins_logical_stream, ..old(self)@ }),
    {
        self.begins = begins_logical_stream;
    }

    /// Whether this packet ends its logical stream.
    pub fn ends_logical_stream(&self) -> (r: bool)
        ensures
            r == self@.ends,
    {
        self.ends
    }

    /// Set whether this packet ends its logical stream.
    pub fn set_ends_local_stream(&mut self, ends_logical_stream: bool)
        ensures
            final(self)@ == (PacketView { ends: ends_logical_stream, ..old(self)@ }),
    {
        self.ends = ends_logical_stream;
    }

    /// The absolute granule position of this packet; -1 means
    /// undetermined.
    pub fn absgp(&self) -> (r: i64)
        ensures
            r == self@.absgp,
    {
        self.absgp
    }

    /// Set the absolute granule position of this packet.
    pub fn set_absgp(&mut self, absgp: i64)
        ensures
            final(self)@ == (PacketView { absgp: absgp, ..old(self)@ }),
    {
        self.absgp = absgp;
    }

    /// The sequential number of this packet within its logical stream.
    pub fn index(&self) -> (r: u32)
        ensures
            r == self@.index,
    {
        self.index
    }

    /// Set the sequential number of this packet.
    pub fn set_index(&mut self, index: u32)
        ensures
            final(self)@ == (PacketView { index: index, ..old(self)@ }),
    {
        self.index = index;
    }
}

/// Cloning a packet copies its data and metadata.
impl Clone for Packet {
    fn clone(&self) -> (r: Self)
        ensures
            r@ == self@,
    {
        let r = Packet {
            data: crate::page::clone_bytes(&self.data),
            begins: self.begins,
            ends: self.ends,
            absgp: self.absgp,
            index: self.index,
        };
        proof {
            assert(r@ =~= self@);
        }
        r
    }
}

} // verus!
