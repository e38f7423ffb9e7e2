use std::collections::hash_map::DefaultHasher;
use std::hash::Hasher;
use vstd::prelude::*;
use vstd::std_specs::hash::DefaultHasherAdditionalSpecFns;
use vstd::string::StringSliceAdditionalSpecFns;

verus! {

/// A deterministic function from keys to 64-bit digests. The ring takes the
/// positions of its virtual nodes, and the digests of the keys it looks up,
/// from one.
pub trait HashOracle {
    /// The keys on which the oracle is defined.
    spec fn accepts(key: Seq<char>) -> bool;

    /// The digest of a key.
    spec fn digest(key: Seq<char>) -> u64;

    /// Computes the digest of a key.
    fn hash(key: &str) -> (h: u64)
        requires
            Self::accepts(key@),
        ensures
            h == Self::digest(key@),
    ;
}

/// The standard hasher as an oracle. The digest of a key is what a new hasher
/// gives after the key was fed to it as text is fed: its bytes, then the byte
/// `0xff`.
impl HashOracle for DefaultHasher {
    open spec fn accepts(key: Seq<char>) -> bool {
        true
    }

    open spec fn digest(key: Seq<char>) -> u64 {
        DefaultHasher::spec_finish(seq![vstd::utf8::encode_utf8(key), seq![0xffu8]])
    }

    fn hash(key: &str) -> (h: u64) {
        let mut state = DefaultHasher::new();
        state.write(key.as_bytes());
        let end: [u8; 1] = [0xffu8];
        let tail = end.as_slice();
        assert(tail@ =~= seq![0xffu8]);
        state.write(tail);
        proof {
            assert(state@ =~= seq![key.spec_bytes(), seq![0xffu8]]);
        }
        state.finish()
    }
}

} // verus!
