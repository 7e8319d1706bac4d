//! Compact peer list decoding.
//!
//! The IPv4 compact form packs each peer into 6 bytes: 4 bytes of
//! big-endian address followed by 2 bytes of big-endian port. A buffer
//! whose length is not a multiple of 6 is rejected, never silently
//! truncated.

use crate::tracker::TrackerError;
use vstd::prelude::*;

verus! {

/// One peer address: an IPv4 address (as its four octets) and a port.
#[derive(Debug, Clone, Copy, PartialEq, Eq)]
pub struct Peer {
    pub ip: [u8; 4],
    pub port: u16,
}

/// Decodes an IPv4 compact peer list: every 6-byte group is 4 bytes of
/// big-endian address and 2 bytes of big-endian port. Succeeds exactly when
/// the buffer length is a multiple of 6.
pub fn parse_peers(buf: &[u8]) -> (r: Result<Vec<Peer>, TrackerError>)
    ensures
        r is Ok <==> buf@.len() % 6 == 0,
        r matches Err(e) ==> e == TrackerError::PeerListMalformed,
        r matches Ok(ps) ==> {
            &&& ps@.len() == buf@.len() / 6
            &&& forall|i: int|
                0 <= i < ps@.len() ==> ((#[trigger] ps@[i]).ip@ == buf@.subrange(6 * i, 6 * i + 4)
                    && ps@[i].port as int == 0x100 * buf@[6 * i + 4] + buf@[6 * i + 5])
        },
{
    if buf.len() % 6 != 0 {
        return Err(TrackerError::PeerListMalformed);
    }
    let n = buf.len() / 6;
    proof {
        assert(6 * (buf@.len() / 6) <= buf@.len());
    }
    let mut out: Vec<Peer> = Vec::new();
    let mut i: usize = 0;
    while i < n
        invariant
            out@.len() == i,
            i <= n,
            n == buf@.len() / 6,
            6 * (n as int) <= buf@.len(),
            buf@.len() <= usize::MAX,
            forall|k: int|
                0 <= k < i ==> ((#[trigger] out@[k]).ip@ == buf@.subrange(6 * k, 6 * k + 4)
                    && out@[k].port as int == 0x100 * buf@[6 * k + 4] + buf@[6 * k + 5]),
        decreases n - i,
    {
        let base = i * 6;
        let mut ip: [u8; 4] = [0u8; 4];
        let mut j: usize = 0;
        while j < 4
            invariant
                j <= 4,
                i < n,
                n == buf@.len() / 6,
                6 * (n as int) <= buf@.len(),
                buf@.len() <= usize::MAX,
                base == 6 * i,
                forall|t: int| 0 <= t < j ==> ip@[t] == buf@[6 * (i as int) + t],
            decreases 4 - j,
        {
            ip[j] = buf[base + j];
            j = j + 1;
        }
        proof {
            assert(ip@ =~= buf@.subrange(6 * (i as int), 6 * (i as int) + 4));
        }
        let port = (buf[base + 4] as u16) * 0x100 + (buf[base + 5] as u16);
        out.push(Peer { ip, port });
        i = i + 1;
    }
    Ok(out)
}

} // verus!
