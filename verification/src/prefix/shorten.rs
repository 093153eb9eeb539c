//! Shortening of prefixes.
use vstd::prelude::*;
use crate::prefix::cover::agree;
use crate::prefix::IpPrefix;

verus! {

/// Shortening of an IP prefix.
pub trait IpPrefixShortening: IpPrefix {
    /// Shortens the prefix to `maxlen` bits; a prefix that is not longer than
    /// `maxlen` is left as it is.
    fn shorten(&mut self, maxlen: u8)
        ensures
            maxlen >= old(self).spec_len() ==> *final(self) == *old(self),
            maxlen < old(self).spec_len() ==> final(self).spec_len() == maxlen && agree(
                final(self).spec_bitslot(),
                old(self).spec_bitslot(),
                maxlen as int,
            ),
    ;
}

} // verus!
