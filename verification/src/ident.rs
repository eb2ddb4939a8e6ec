//! Canonical byte identities for nodes and keys.
//!
//! The ring never compares node or key values structurally: each value is
//! rendered to a canonical byte string (its identity), and only the hash of
//! that string matters. Two values with the same identity are the same for
//! all ring purposes.

use vstd::prelude::*;
use vstd::string::StrSliceExecFns;
use vstd::string::StringSliceAdditionalSpecFns;
use vstd::utf8::encode_utf8;

verus! {

/// A value that can be rendered to a canonical byte string, its identity.
///
/// The rendering must be stable for the value's lifetime in the ring:
/// changing it while the value is a member would orphan the entry, since
/// lookups would no longer find its hash.
pub trait Identity {
    /// The identity bytes, as a mathematical sequence.
    spec fn id(&self) -> Seq<u8>;

    /// Render the identity bytes.
    fn identity(&self) -> (r: Vec<u8>)
        ensures
            r@ == self.id(),
    ;
}

impl Identity for String {
    /// A string's identity is its UTF-8 encoding, not canonicalized in any
    /// way: no case folding, no trimming, no normalization.
    open spec fn id(&self) -> Seq<u8> {
        encode_utf8(self@)
    }

    fn identity(&self) -> (r: Vec<u8>) {
        self.as_str().as_bytes_vec()
    }
}

/// The decimal rendering of `n`, most significant digit first, no sign and
/// no leading zeros (`0` itself renders as the single byte `b'0'`).
pub open spec fn dec_rep(n: nat) -> Seq<u8>
    decreases n,
{
    if n < 10 {
        seq![(48 + n) as u8]
    } else {
        dec_rep(n / 10).push((48 + n % 10) as u8)
    }
}

/// Append the decimal rendering of `n` to `out`.
fn push_dec(out: &mut Vec<u8>, n: u64)
    ensures
        final(out)@ == old(out)@ + dec_rep(n as nat),
    decreases n,
{
    if n >= 10 {
        push_dec(out, n / 10);
    }
    out.push(48 + (n % 10) as u8);
    proof {
        assert(out@ =~= old(out)@ + dec_rep(n as nat));
    }
}

/// A virtual node: one ring entry for a backend addressed by an IPv4
/// address and a port, distinguished from its siblings by an index.
///
/// Its identity renders as `<ip>:<port>|<id>` with the address as a decimal
/// dotted quad, e.g. `127.0.0.1:1024|2`.
#[derive(Clone, Copy, Debug, PartialEq, Eq, Structural)]
pub struct VNode {
    pub ip0: u8,
    pub ip1: u8,
    pub ip2: u8,
    pub ip3: u8,
    pub port: u16,
    pub id: u64,
}

impl VNode {
    pub fn new(ip0: u8, ip1: u8, ip2: u8, ip3: u8, port: u16, id: u64) -> (v: VNode)
        ensures
            v == (VNode { ip0, ip1, ip2, ip3, port, id }),
    {
        VNode { ip0, ip1, ip2, ip3, port, id }
    }
}

/// `<ip0>.<ip1>.<ip2>.<ip3>:<port>|<id>`, every number in decimal.
pub open spec fn vnode_id(v: VNode) -> Seq<u8> {
    dec_rep(v.ip0 as nat) + seq![46u8] + dec_rep(v.ip1 as nat) + seq![46u8] + dec_rep(
        v.ip2 as nat,
    ) + seq![46u8] + dec_rep(v.ip3 as nat) + seq![58u8] + dec_rep(v.port as nat) + seq![124u8]
        + dec_rep(v.id as nat)
}

impl Identity for VNode {
    open spec fn id(&self) -> Seq<u8> {
        vnode_id(*self)
    }

    fn identity(&self) -> (r: Vec<u8>) {
        let mut out: Vec<u8> = Vec::new();
        push_dec(&mut out, self.ip0 as u64);
        out.push(46);
        push_dec(&mut out, self.ip1 as u64);
        out.push(46);
        push_dec(&mut out, self.ip2 as u64);
        out.push(46);
        push_dec(&mut out, self.ip3 as u64);
        out.push(58);
        push_dec(&mut out, self.port as u64);
        out.push(124);
        push_dec(&mut out, self.id);
        proof {
            assert(out@ =~= vnode_id(*self));
        }
        out
    }
}

} // verus!
