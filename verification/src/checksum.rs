//! The running checksum by which recovered output is compared with what was written.
use vstd::prelude::*;

verus! {

/// One bit leaves the register of CRC-32/ISO-HDLC, whose bits run from low to high.
pub open spec fn shifted(register: u32) -> u32 {
    if register & 1 == 1 {
        (register >> 1) ^ 0xEDB8_8320
    } else {
        register >> 1
    }
}

/// The register after `bits` bits have left it.
pub open spec fn shifted_by(register: u32, bits: nat) -> u32
    decreases bits,
{
    if bits == 0 {
        register
    } else {
        shifted(shifted_by(register, (bits - 1) as nat))
    }
}

/// The register after it was fed `data`.
pub open spec fn fed_register(register: u32, data: Seq<u8>) -> u32
    decreases data.len(),
{
    if data.len() == 0 {
        register
    } else {
        shifted_by(fed_register(register, data.drop_last()) ^ (data.last() as u32), 8)
    }
}

/// The IEEE CRC-32 (CRC-32/ISO-HDLC) of `data`: the register starts with all bits set, and its
/// complement is the checksum.
pub open spec fn ieee_crc32(data: Seq<u8>) -> u32 {
    !fed_register(u32::MAX, data)
}

/// Calls `crc32fast::Hasher`: a hasher that starts from the checksum `crc` is fed `bytes` and
/// finalized.
///
/// Claimed of the crate: it computes the IEEE CRC-32; its checksum is the complement of the
/// register, and a hasher that starts from a checksum goes on from the register that the
/// checksum stands for.
#[verifier::external_body]
fn crc32fast_extend(crc: u32, bytes: &[u8]) -> (r: u32)
    ensures
        r == !fed_register(!crc, bytes@),
{
    let mut hasher = crc32fast::Hasher::new_with_initial(crc);
    hasher.update(bytes);
    hasher.finalize()
}

/// Calls `crc_fast::Digest` for CRC-32/ISO-HDLC: a digest that starts from the register `state`
/// is fed `bytes`, and its register is read.
///
/// Claimed of the crate: what it takes and gives as its state is the register.
#[verifier::external_body]
fn crc_fast_extend(state: u32, bytes: &[u8]) -> (r: u32)
    ensures
        r == fed_register(state, bytes@),
{
    let algorithm = crc_fast::CrcAlgorithm::Crc32IsoHdlc;
    let mut digest = crc_fast::Digest::new_with_init_state(algorithm, u64::from(state));
    digest.update(bytes);
    digest.get_state() as u32
}

/// What is fed in two pieces is fed as one.
pub proof fn feeding_appends(register: u32, first: Seq<u8>, second: Seq<u8>)
    ensures
        fed_register(register, first + second) == fed_register(
            fed_register(register, first),
            second,
        ),
    decreases second.len(),
{
    if second.len() == 0 {
        assert(first + second =~= first);
    } else {
        assert((first + second).drop_last() =~= first + second.drop_last());
        assert((first + second).last() == second.last());
        feeding_appends(register, first, second.drop_last());
    }
}

proof fn lemma_complement(x: u32)
    ensures
        !(!x) == x,
{
    assert(!(!x) == x) by (bit_vector);
}

/// A running IEEE CRC-32.
///
/// `Wide` holds the register of the wide implementation, which only some processors have;
/// `Portable` holds the checksum itself. Only the running value is kept.
#[derive(Clone, Copy, Debug)]
pub enum RecoveryChecksum {
    Wide(u32),
    Portable(u32),
}

impl RecoveryChecksum {
    /// Whether this is the running checksum of exactly the bytes `fed`.
    pub open spec fn covers(self, fed: Seq<u8>) -> bool {
        match self {
            RecoveryChecksum::Wide(state) => state == fed_register(u32::MAX, fed),
            RecoveryChecksum::Portable(crc) => crc == ieee_crc32(fed),
        }
    }

    /// The checksum of no bytes; `wide` says whether the processor has the wide implementation.
    pub fn new(wide: bool) -> (c: RecoveryChecksum)
        ensures
            c.covers(Seq::empty()),
            c is Wide <==> wide,
    {
        if wide {
            RecoveryChecksum::Wide(u32::MAX)
        } else {
            assert(!u32::MAX == 0) by (bit_vector);
            RecoveryChecksum::Portable(0)
        }
    }

    /// Feeds more bytes.
    pub fn update(&mut self, bytes: &[u8])
        ensures
            *final(self) == (match *old(self) {
                RecoveryChecksum::Wide(state) => RecoveryChecksum::Wide(
                    fed_register(state, bytes@),
                ),
                RecoveryChecksum::Portable(crc) => RecoveryChecksum::Portable(
                    !fed_register(!crc, bytes@),
                ),
            }),
            forall|fed: Seq<u8>| old(self).covers(fed) ==> final(self).covers(#[trigger] (fed + bytes@)),
    {
        match *self {
            RecoveryChecksum::Wide(state) => {
                let next: u32 = crc_fast_extend(state, bytes);
                *self = RecoveryChecksum::Wide(next);
            },
            RecoveryChecksum::Portable(crc) => {
                let next: u32 = crc32fast_extend(crc, bytes);
                *self = RecoveryChecksum::Portable(next);
            },
        }
        proof {
            assert forall|fed: Seq<u8>| old(self).covers(fed) implies self.covers(
                #[trigger] (fed + bytes@),
            ) by {
                feeding_appends(u32::MAX, fed, bytes@);
                lemma_complement(fed_register(u32::MAX, fed));
            }
        }
    }

    /// The checksum of everything fed so far.
    pub fn finalize(&self) -> (crc: u32)
        ensures
            crc == (match *self {
                RecoveryChecksum::Wide(state) => !state,
                RecoveryChecksum::Portable(crc) => crc,
            }),
            forall|fed: Seq<u8>| #[trigger] self.covers(fed) ==> crc == ieee_crc32(fed),
    {
        match *self {
            RecoveryChecksum::Wide(state) => !state,
            RecoveryChecksum::Portable(crc) => crc,
        }
    }
}

/// Where the bytes are split into updates makes no difference, and neither does the
/// implementation: two running checksums that cover the same bytes finalize alike.
pub proof fn checksum_is_independent_of_implementation(
    a: RecoveryChecksum,
    b: RecoveryChecksum,
    fed: Seq<u8>,
)
    requires
        a is Wide,
        b is Portable,
        a.covers(fed),
        b.covers(fed),
    ensures
        !(a->Wide_0) == b->Portable_0,
{
}

} // verus!
