//! Wire types of the TCP sliding-window sketch: a fixed-size message
//! and response with ones'-complement checksums, and the helpers that
//! assemble received frames.
//!
//! The checksum folds the 32-bit sum into 16 bits with wrapping
//! arithmetic and complements it; `check_checksum` accepts exactly the
//! values `gen_checksum` produces over the other fields.

use vstd::prelude::*;
use vstd::slice::slice_index_get;
use vstd::wrapping::u32_specs;

verus! {

/// Bytes of payload carried by one message.
pub const MESSAGE_CONTENT_SIZE: usize = 4;

/// The cases a lossy-wire simulation can run under.
pub enum SendCase {
    /// Deliver every datagram.
    Normal,
    /// Drop a random share of datagrams.
    MayLoss,
    /// Deliver nothing, forcing the timeout path.
    MayOverTime,
}

/// Fold a 32-bit sum into 16 bits and complement it.
pub open spec fn spec_fold_checksum(sum: u32) -> u32 {
    !(u32_specs::wrapping_add(sum >> 16, sum) & 0xFF_FF)
}

/// The checksum over a response's header words.
pub open spec fn spec_response_checksum(seq_num: u32, ack_num: u32) -> u32 {
    spec_fold_checksum(u32_specs::wrapping_add(seq_num, ack_num))
}

/// The checksum over a message's header words and payload, two payload
/// bytes per 16-bit group.
pub open spec fn spec_message_checksum(seq_num: u32, ack_num: u32, content: Seq<u8>) -> u32 {
    spec_fold_checksum(
        u32_specs::wrapping_add(
            u32_specs::wrapping_add(
                u32_specs::wrapping_add(
                    u32_specs::wrapping_add(
                        u32_specs::wrapping_add(seq_num, ack_num),
                        (content[0] as u32) << 8,
                    ),
                    content[1] as u32,
                ),
                (content[2] as u32) << 8,
            ),
            content[3] as u32,
        ),
    )
}

/// An acknowledgement frame of the sketch.
#[derive(Debug, Clone, Copy)]
pub struct Response {
    pub seq_num: u32,
    pub ack_num: u32,
    pub check_sum: u32,
}

impl Response {
    /// A response with its checksum already set.
    pub fn new(seq_num: u32, ack_num: u32) -> (r: Response)
        ensures
            r.seq_num == seq_num,
            r.ack_num == ack_num,
            r.check_sum == spec_response_checksum(seq_num, ack_num),
    {
        let mut ret_resp = Response { seq_num, ack_num, check_sum: 0u32 };
        ret_resp.set_checksum();
        ret_resp
    }

    /// Stamp the checksum over the current header words.
    pub fn set_checksum(&mut self)
        ensures
            final(self).seq_num == old(self).seq_num,
            final(self).ack_num == old(self).ack_num,
            final(self).check_sum == spec_response_checksum(old(self).seq_num, old(self).ack_num),
    {
        self.check_sum = self.gen_checksum();
    }

    /// Whether the stored checksum matches the header words.
    pub fn check_checksum(&self) -> (r: bool)
        ensures
            r == (self.check_sum == spec_response_checksum(self.seq_num, self.ack_num)),
    {
        self.check_sum == self.gen_checksum()
    }

    /// The checksum the current header words call for.
    pub fn gen_checksum(&self) -> (r: u32)
        ensures
            r == spec_response_checksum(self.seq_num, self.ack_num),
    {
        let mut check_sum: u32 = 0;
        check_sum = check_sum.wrapping_add(self.seq_num);
        check_sum = check_sum.wrapping_add(self.ack_num);
        check_sum = (check_sum >> 16).wrapping_add(check_sum) & 0xFF_FF;
        !check_sum
    }
}

/// A TCP segment header, spelled out field by field.
#[allow(non_camel_case_types)]
pub struct TCP_Segment {
    pub src_port: u32,
    pub des_port: u32,
    pub seq_number: u64,
    pub ack_number: u64,
    pub data_offset: u16,
    pub window_size: u32,
    pub check_sum: u32,
}

/// A data frame of the sketch: header words, checksum, and a fixed
/// four-byte payload.
#[derive(Debug, Clone, Copy)]
pub struct Message {
    pub seq_num: u32,
    pub ack_num: u32,
    pub check_sum: u32,
    pub content: [u8; 4],
}

impl Message {
    /// A message with its checksum already set.
    pub fn new(seq_num: u32, ack_num: u32, content: [u8; 4]) -> (r: Message)
        ensures
            r.seq_num == seq_num,
            r.ack_num == ack_num,
            r.content@ == content@,
            r.check_sum == spec_message_checksum(seq_num, ack_num, content@),
    {
        let mut ret_msg = Message { seq_num, ack_num, check_sum: 0u32, content };
        ret_msg.set_checksum();
        ret_msg
    }

    /// Stamp the checksum over the current header words and payload.
    pub fn set_checksum(&mut self)
        ensures
            final(self).seq_num == old(self).seq_num,
            final(self).ack_num == old(self).ack_num,
            final(self).content@ == old(self).content@,
            final(self).check_sum == spec_message_checksum(
                old(self).seq_num,
                old(self).ack_num,
                old(self).content@,
            ),
    {
        self.check_sum = self.gen_checksum();
    }

    /// Whether the stored checksum matches the header words and
    /// payload.
    pub fn check_checksum(&self) -> (r: bool)
        ensures
            r == (self.check_sum == spec_message_checksum(
                self.seq_num,
                self.ack_num,
                self.content@,
            )),
    {
        self.check_sum == self.gen_checksum()
    }

    /// The checksum the current fields call for: the payload joins the
    /// sum two bytes per 16-bit group.
    pub fn gen_checksum(&self) -> (r: u32)
        ensures
            r == spec_message_checksum(self.seq_num, self.ack_num, self.content@),
    {
        let mut check_sum: u32 = 0;
        check_sum = check_sum.wrapping_add(self.seq_num);
        check_sum = check_sum.wrapping_add(self.ack_num);
        check_sum = check_sum.wrapping_add((self.content[0] as u32) << 8);
        check_sum = check_sum.wrapping_add(self.content[1] as u32);
        check_sum = check_sum.wrapping_add((self.content[2] as u32) << 8);
        check_sum = check_sum.wrapping_add(self.content[3] as u32);
        check_sum = (check_sum >> 16).wrapping_add(check_sum) & 0xFF_FF;
        !check_sum
    }
}

/// Copy a received payload into a reassembly buffer at the given
/// offset, leaving every other byte as it was.
pub fn assemble_cur_buffer(data: &mut [u8], inner: &[u8], base: usize)
    requires
        base + inner@.len() <= old(data)@.len(),
    ensures
        final(data)@.len() == old(data)@.len(),
        forall|i: int|
            base <= i < base + inner@.len() ==> final(data)@[i] == inner@[i - base],
        forall|i: int|
            0 <= i < old(data)@.len() && !(base <= i < base + inner@.len()) ==> final(data)@[i]
                == old(data)@[i],
{
    let total = data.len();
    let len = inner.len();
    let mut i: usize = 0;
    while i < len
        invariant
            i <= len,
            len == inner@.len(),
            total == data@.len(),
            base + len <= total,
            data@.len() == old(data)@.len(),
            forall|j: int| base <= j < base + i ==> data@[j] == inner@[j - base],
            forall|j: int|
                0 <= j < old(data)@.len() && !(base <= j < base + i) ==> data@[j] == old(
                    data,
                )@[j],
        decreases len - i,
    {
        let b = *slice_index_get(inner, i);
        data[i + base] = b;
        i = i + 1;
    }
}

/// Read a big-endian 32-bit word from the front of a byte run; fails
/// exactly when fewer than four bytes are given.
pub fn build_u32_from_u8(data: &[u8]) -> (r: Result<u32, ()>)
    ensures
        match r {
            Ok(v) => data@.len() >= 4 && v == ((data@[0] as u32) << 24 | (data@[1] as u32) << 16 | (
            data@[2] as u32) << 8 | (data@[3] as u32)),
            Err(()) => data@.len() < 4,
        },
{
    if data.len() < 4 {
        Err(())
    } else {
        let b0 = *slice_index_get(data, 0);
        let b1 = *slice_index_get(data, 1);
        let b2 = *slice_index_get(data, 2);
        let b3 = *slice_index_get(data, 3);
        Ok((b0 as u32) << 24 | (b1 as u32) << 16 | (b2 as u32) << 8 | (b3 as u32))
    }
}

} // verus!
