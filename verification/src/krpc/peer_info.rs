//! Peer info: a peer's endpoint and its compact wire form of fixed byte
//! width (address, then big-endian port).

use vstd::prelude::*;

verus! {

/// The compact wire form of a peer endpoint: a fixed-width byte layout.
/// In a `get_peers` response each peer travels as one byte string of this
/// width inside a list, not concatenated.
pub trait CompactPeerInfo: Sized {
    /// The error a malformed read reports.
    type Error;

    /// The fixed width of the compact form, in bytes; at least one.
    spec fn compact_len() -> int;

    /// The compact bytes of this peer info.
    spec fn compact_bytes(&self) -> Seq<u8>;

    /// The peer info that a compact byte run of the fixed width denotes.
    spec fn compact_of_bytes(b: Seq<u8>) -> Self;

    /// Writing is one-to-one: the compact bytes have the fixed width and
    /// read back as the same peer info.
    proof fn lemma_compact_roundtrip(x: &Self)
        ensures
            Self::compact_len() >= 1,
            x.compact_bytes().len() == Self::compact_len(),
            Self::compact_of_bytes(x.compact_bytes()) == *x,
    ;

    /// Reads one compact peer info from the front of the data.  Succeeds
    /// exactly when the data holds at least the fixed width, consuming
    /// exactly that many bytes.
    fn try_read_compact_peer_info(data: &[u8]) -> (r: Result<(usize, Self), Self::Error>)
        ensures
            (r is Ok) == (data@.len() >= Self::compact_len()),
            r matches Ok((n, x)) ==> n as int == Self::compact_len() && x
                == Self::compact_of_bytes(data@.subrange(0, Self::compact_len())),
    ;

    /// The compact bytes of this peer info, of exactly the fixed width.
    fn write_compact_peer_info(&self) -> (r: Vec<u8>)
        ensures
            r@ == self.compact_bytes(),
    ;
}

/// Reading the compact bytes of a peer info hands back the same peer and
/// reports exactly its fixed width.
pub proof fn lemma_compact_peer_info_roundtrip<P: CompactPeerInfo>(x: &P)
    ensures
        x.compact_bytes().len() == P::compact_len(),
        P::compact_of_bytes(x.compact_bytes().subrange(0, P::compact_len())) == *x,
{
    P::lemma_compact_roundtrip(x);
    assert(x.compact_bytes().subrange(0, P::compact_len()) =~= x.compact_bytes());
}

} // verus!
