//! The control messages that carry file descriptors over a socket, in the
//! layout of Linux on machines of 64 bits with the least significant byte
//! first: a header of the length, the level and the type, then the data, then
//! zeros up to a multiple of eight bytes.
use vstd::prelude::*;
use vstd::slice::slice_subrange;
use crate::hash::words;
use crate::hash::words::{read_le32, read_le64, write_le};

verus! {

/// The header of a control message.
pub struct Cmsghdr {
    pub cmsg_len: u64,
    pub cmsg_level: i32,
    pub cmsg_type: i32,
}

pub const SOL_SOCKET: i32 = 1;

pub const SCM_RIGHTS: i32 = 1;

/// The least multiple of eight that is not below `n`.
pub open spec fn aligned(n: int) -> int {
    (n + 7) / 8 * 8
}

/// Rounds up to a multiple of eight.
pub fn align8(n: usize) -> (r: usize)
    requires
        n + 7 <= usize::MAX,
    ensures
        r == aligned(n as int),
        r % 8 == 0,
        n <= r < n + 8,
{
    (n + 7) / 8 * 8
}

/// A multiple of eight is aligned already.
pub proof fn law_align8_idempotent(n: int)
    requires
        0 <= n,
    ensures
        aligned(aligned(n)) == aligned(n),
{
}

/// The header of a message that carries `count` descriptors.
pub open spec fn rights_header(count: nat) -> Cmsghdr {
    Cmsghdr {
        cmsg_len: (16 + 4 * count) as u64,
        cmsg_level: SOL_SOCKET,
        cmsg_type: SCM_RIGHTS,
    }
}

/// The words of a message that carries the descriptors.
pub open spec fn control_words(fds: Seq<i32>) -> Seq<u32> {
    let h = rights_header(fds.len());
    seq![
        (h.cmsg_len % 0x1_0000_0000) as u32,
        (h.cmsg_len / 0x1_0000_0000) as u32,
        h.cmsg_level as u32,
        h.cmsg_type as u32,
    ] + fds.map_values(|fd: i32| fd as u32) + (if fds.len() % 2 == 0 {
        Seq::empty()
    } else {
        seq![0u32]
    })
}

/// Builds the control message that carries the descriptors.
pub fn control_message(fds: &[i32]) -> (r: Vec<u8>)
    requires
        4 * fds@.len() + 24 <= usize::MAX,
    ensures
        r@ == words::words_le_bytes(control_words(fds@)),
        r@.len() == aligned(16 + 4 * fds@.len() as int),
{
    let len: u64 = 16 + 4 * (fds.len() as u64);
    let mut w: Vec<u32> = Vec::new();
    w.push((len % 0x1_0000_0000) as u32);
    w.push((len / 0x1_0000_0000) as u32);
    w.push(SOL_SOCKET as u32);
    w.push(SCM_RIGHTS as u32);
    let ghost head = w@;
    let mut i: usize = 0;
    while i < fds.len()
        invariant
            i <= fds@.len(),
            w@ == head + fds@.take(i as int).map_values(|fd: i32| fd as u32),
        decreases fds@.len() - i,
    {
        w.push(fds[i] as u32);
        i += 1;
        assert(w@ =~= head + fds@.take(i as int).map_values(|fd: i32| fd as u32));
    }
    assert(fds@.take(i as int) =~= fds@);
    if fds.len() % 2 != 0 {
        w.push(0);
    }
    assert(w@ =~= control_words(fds@));
    let n: usize = w.len();
    assert(w@.take(n as int) =~= w@);
    write_le(w.as_slice(), n)
}

/// The header at the front of received control bytes.
#[verifier::opaque]
pub open spec fn header_in(control: Seq<u8>) -> Cmsghdr {
    Cmsghdr {
        cmsg_len: words::le64(control, 0),
        cmsg_level: words::le32(control, 8) as i32,
        cmsg_type: words::le32(control, 12) as i32,
    }
}

/// Whether received control bytes are messages one after the other: each is
/// at least as long as its header and ends within the bytes.
pub open spec fn well_formed(control: Seq<u8>) -> bool
    decreases control.len(),
{
    let n = header_in(control).cmsg_len as int;
    control.len() < 16 || {
        &&& 16 <= n <= control.len()
        &&& aligned(n) <= control.len() ==> well_formed(control.skip(aligned(n)))
    }
}

/// The descriptors of the message at the front.
pub open spec fn front_fds(control: Seq<u8>) -> Seq<i32> {
    let h = header_in(control);
    if h.cmsg_level == SOL_SOCKET && h.cmsg_type == SCM_RIGHTS {
        Seq::new(((h.cmsg_len - 16) / 4) as nat, |i: int| words::le32(control, 16 + 4 * i) as i32)
    } else {
        Seq::empty()
    }
}

/// The descriptors of all messages, in order.
pub open spec fn fds_in(control: Seq<u8>) -> Seq<i32>
    decreases control.len(),
{
    let n = header_in(control).cmsg_len as int;
    if control.len() < 16 || n < 16 {
        Seq::empty()
    } else if aligned(n) <= control.len() {
        front_fds(control) + fds_in(control.skip(aligned(n)))
    } else {
        front_fds(control)
    }
}

fn read_header(control: &[u8]) -> (r: Cmsghdr)
    requires
        control@.len() >= 16,
    ensures
        r == header_in(control@),
{
    reveal(header_in);
    Cmsghdr {
        cmsg_len: read_le64(control, 0),
        cmsg_level: read_le32(control, 8) as i32,
        cmsg_type: read_le32(control, 12) as i32,
    }
}

/// Whether received control bytes are well formed.
pub fn is_well_formed(control: &[u8]) -> (r: bool)
    ensures
        r == well_formed(control@),
{
    let mut rest = control;
    while rest.len() >= 16
        invariant
            well_formed(rest@) == well_formed(control@),
        decreases rest@.len(),
    {
        let n: u64 = read_header(rest).cmsg_len;
        if n < 16 || n > rest.len() as u64 {
            return false;
        }
        let pad: u64 = (8 - n % 8) % 8;
        if pad > rest.len() as u64 - n {
            return true;
        }
        let next: usize = (n + pad) as usize;
        assert(next == aligned(n as int));
        let after = slice_subrange(rest, next, rest.len());
        assert(after@ =~= rest@.skip(next as int));
        rest = after;
    }
    true
}

fn push_front_fds(fds: &mut Vec<i32>, rest: &[u8], h: &Cmsghdr)
    requires
        rest@.len() >= 16,
        *h == header_in(rest@),
        16 <= h.cmsg_len <= rest@.len(),
    ensures
        final(fds)@ == old(fds)@ + front_fds(rest@),
{
    let ghost before = fds@;
    assert(rest.len() <= usize::MAX);
    let n: usize = h.cmsg_len as usize;
    if h.cmsg_level == SOL_SOCKET && h.cmsg_type == SCM_RIGHTS {
        let count: usize = (n - 16) / 4;
        let mut i: usize = 0;
        while i < count
            invariant
                i <= count,
                n == h.cmsg_len,
                16 <= n <= rest@.len(),
                count == (n - 16) / 4,
                *h == header_in(rest@),
                h.cmsg_level == SOL_SOCKET && h.cmsg_type == SCM_RIGHTS,
                fds@ == before + front_fds(rest@).take(i as int),
            decreases count - i,
        {
            fds.push(read_le32(rest, 16 + 4 * i) as i32);
            i += 1;
            assert(fds@ =~= before + front_fds(rest@).take(i as int));
        }
        assert(front_fds(rest@).take(i as int) =~= front_fds(rest@));
    } else {
        assert(fds@ =~= before + front_fds(rest@));
    }
}

/// Takes the descriptors out of received control bytes.
pub fn received_fds(control: &[u8]) -> (r: Vec<i32>)
    requires
        well_formed(control@),
    ensures
        r@ == fds_in(control@),
{
    let mut fds: Vec<i32> = Vec::new();
    let mut rest = control;
    assert(fds@ + fds_in(rest@) =~= fds_in(control@));
    while rest.len() >= 16
        invariant
            well_formed(rest@),
            fds@ + fds_in(rest@) == fds_in(control@),
        decreases rest@.len(),
    {
        let h = read_header(rest);
        assert(16 <= h.cmsg_len <= rest.len());
        let n: usize = h.cmsg_len as usize;
        let ghost before = fds@;
        let ghost front = front_fds(rest@);
        push_front_fds(&mut fds, rest, &h);
        let pad: usize = (8 - n % 8) % 8;
        if pad > rest.len() - n {
            return fds;
        }
        let next: usize = n + pad;
        assert(next == aligned(n as int));
        let after = slice_subrange(rest, next, rest.len());
        proof {
            assert(after@ =~= rest@.skip(next as int));
            assert(before + (front + fds_in(after@)) =~= (before + front) + fds_in(after@));
        }
        rest = after;
    }
    assert(fds@ + fds_in(rest@) =~= fds@);
    fds
}

proof fn lemma_word_read_back(x: u32)
    ensures
        words::le32(words::le_bytes(x), 0) == x,
{
    let b = words::le_bytes(x);
    assert(b[0] == x % 0x100);
    assert(b[1] == (x / 0x100) % 0x100);
    assert(b[2] == (x / 0x1_0000) % 0x100);
    assert(b[3] == x / 0x100_0000);
    assert((x / 0x100) / 0x100 == x / 0x1_0000);
    assert((x / 0x1_0000) / 0x100 == x / 0x100_0000);
}

proof fn lemma_same_word(a: Seq<u8>, i: int, b: Seq<u8>, j: int)
    requires
        a.subrange(i, i + 4) == b.subrange(j, j + 4),
        0 <= i <= a.len() - 4,
        0 <= j <= b.len() - 4,
    ensures
        words::le32(a, i) == words::le32(b, j),
{
    let x = a.subrange(i, i + 4);
    let y = b.subrange(j, j + 4);
    assert(x[0] == a[i] && y[0] == b[j]);
    assert(x[1] == a[i + 1] && y[1] == b[j + 1]);
    assert(x[2] == a[i + 2] && y[2] == b[j + 2]);
    assert(x[3] == a[i + 3] && y[3] == b[j + 3]);
}

proof fn lemma_words_read_back(w: Seq<u32>, i: int)
    requires
        0 <= i < w.len(),
    ensures
        words::words_le_bytes(w).len() == 4 * w.len(),
        words::le32(words::words_le_bytes(w), 4 * i) == w[i],
    decreases w.len(),
{
    let b = words::words_le_bytes(w);
    let head = words::words_le_bytes(w.drop_last());
    let last = words::le_bytes(w.last());
    if w.len() > 1 {
        lemma_words_read_back(w.drop_last(), if i < w.len() - 1 { i } else { 0 });
    }
    assert(head.len() == 4 * (w.len() - 1));
    assert(b == head + last);
    if i < w.len() - 1 {
        assert(b.subrange(4 * i, 4 * i + 4) =~= head.subrange(4 * i, 4 * i + 4));
        lemma_same_word(b, 4 * i, head, 4 * i);
    } else {
        assert(b.subrange(4 * i, 4 * i + 4) =~= last.subrange(0, 4));
        lemma_same_word(b, 4 * i, last, 0);
        lemma_word_read_back(w.last());
    }
}

/// The descriptors that a control message carries are the ones that it was
/// built from.
pub proof fn law_descriptors_round_trip(fds: Seq<i32>)
    requires
        4 * fds.len() + 24 <= usize::MAX,
    ensures
        well_formed(words::words_le_bytes(control_words(fds))),
        fds_in(words::words_le_bytes(control_words(fds))) == fds,
{
    let w = control_words(fds);
    let b = words::words_le_bytes(w);
    let n = 16 + 4 * fds.len();
    lemma_words_read_back(w, 0);
    lemma_words_read_back(w, 1);
    lemma_words_read_back(w, 2);
    lemma_words_read_back(w, 3);
    assert(words::le64(b, 0) == n);
    assert((1i32 as u32) as i32 == 1i32) by (bit_vector);
    assert(header_in(b) == rights_header(fds.len())) by {
        reveal(header_in);
    }
    assert(b.len() == aligned(n as int));
    let rest = b.skip(aligned(n as int));
    assert(well_formed(rest));
    assert(fds_in(rest) =~= Seq::<i32>::empty());
    assert(front_fds(b) =~= fds) by {
        assert forall|i: int| 0 <= i < fds.len() implies front_fds(b)[i] == fds[i] by {
            lemma_words_read_back(w, 4 + i);
            assert(w[4 + i] == fds[i] as u32);
            let fd = fds[i];
            assert((fd as u32) as i32 == fd) by (bit_vector);
        }
    }
    assert(fds + Seq::<i32>::empty() =~= fds);
}

proof fn lemma_message_word(fds: Seq<i32>, rest: Seq<u8>, i: int)
    requires
        0 <= i < control_words(fds).len(),
    ensures
        words::le32(words::words_le_bytes(control_words(fds)) + rest, 4 * i) == control_words(fds)[i],
{
    let w = control_words(fds);
    let b = words::words_le_bytes(w);
    let s = b + rest;
    lemma_words_read_back(w, i);
    assert(s.subrange(4 * i, 4 * i + 4) =~= b.subrange(4 * i, 4 * i + 4));
    lemma_same_word(s, 4 * i, b, 4 * i);
}

proof fn lemma_message_header(fds: Seq<i32>, rest: Seq<u8>)
    requires
        4 * fds.len() + 24 <= usize::MAX,
    ensures
        header_in(words::words_le_bytes(control_words(fds)) + rest) == rights_header(fds.len()),
        words::words_le_bytes(control_words(fds)).len() == aligned(16 + 4 * fds.len() as int),
{
    let w = control_words(fds);
    let s = words::words_le_bytes(w) + rest;
    let n = 16 + 4 * fds.len();
    lemma_message_word(fds, rest, 0);
    lemma_message_word(fds, rest, 1);
    lemma_message_word(fds, rest, 2);
    lemma_message_word(fds, rest, 3);
    lemma_words_read_back(w, 0);
    assert(words::le64(s, 0) == n);
    assert((1i32 as u32) as i32 == 1i32) by (bit_vector);
    reveal(header_in);
}

proof fn lemma_message_fds(fds: Seq<i32>, rest: Seq<u8>)
    requires
        4 * fds.len() + 24 <= usize::MAX,
    ensures
        front_fds(words::words_le_bytes(control_words(fds)) + rest) == fds,
{
    let w = control_words(fds);
    let s = words::words_le_bytes(w) + rest;
    lemma_message_header(fds, rest);
    assert forall|i: int| 0 <= i < fds.len() implies front_fds(s)[i] == fds[i] by {
        lemma_message_word(fds, rest, 4 + i);
        assert(w[4 + i] == fds[i] as u32);
        let fd = fds[i];
        assert((fd as u32) as i32 == fd) by (bit_vector);
    }
    assert(front_fds(s) =~= fds);
}

/// Every message of received control bytes counts: the descriptors of the first
/// come first, and those of the others follow.
pub proof fn law_messages_in_order(fds: Seq<i32>, rest: Seq<u8>)
    requires
        4 * fds.len() + 24 <= usize::MAX,
    ensures
        fds_in(words::words_le_bytes(control_words(fds)) + rest) == fds + fds_in(rest),
        well_formed(words::words_le_bytes(control_words(fds)) + rest) == well_formed(rest),
{
    let b = words::words_le_bytes(control_words(fds));
    lemma_message_header(fds, rest);
    lemma_message_fds(fds, rest);
    assert((b + rest).skip(b.len() as int) =~= rest);
}

/// What is aligned is a multiple of eight and the least one that is not below.
pub proof fn law_aligned(n: int)
    requires
        0 <= n,
    ensures
        aligned(n) % 8 == 0,
        n <= aligned(n) < n + 8,
{
}

} // verus!
