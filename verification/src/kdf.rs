//! From a password to a key.

use argon2::{Algorithm, Version};
use vstd::prelude::*;
use vstd::utf8;

use crate::failure::{Failure, KdfFault};

verus! {

/// The 32-byte Argon2id (version 0x13) hash of `password` with `salt` at these costs: what
/// `argon2::Argon2::hash_password_into` writes.
pub uninterp spec fn argon2id(
    password: Seq<u8>,
    salt: Seq<u8>,
    m_cost: u32,
    t_cost: u32,
    p_cost: u32,
) -> Seq<u8>;

/// Why Argon2 refuses these costs, or `None` where it takes them.
pub open spec fn cost_fault(m_cost: u32, t_cost: u32, p_cost: u32) -> Option<KdfFault> {
    if m_cost < 8 || m_cost < 8 * p_cost {
        Some(KdfFault::MemoryTooLittle)
    } else if t_cost < 1 {
        Some(KdfFault::TimeTooSmall)
    } else if p_cost < 1 {
        Some(KdfFault::ThreadsTooFew)
    } else if p_cost > 0xff_ffff {
        Some(KdfFault::ThreadsTooMany)
    } else {
        None
    }
}

/// Why Argon2 refuses this password or this salt, or `None` where it takes them.
pub open spec fn input_fault(password: Seq<u8>, salt: Seq<u8>) -> Option<KdfFault> {
    if password.len() > 0xffff_ffff {
        Some(KdfFault::PasswordTooLong)
    } else if salt.len() < 8 {
        Some(KdfFault::SaltTooShort)
    } else if salt.len() > 0xffff_ffff {
        Some(KdfFault::SaltTooLong)
    } else {
        None
    }
}

/// The key that a password of these bytes gives with `salt` at these costs.
pub open spec fn key_of(
    password: Seq<u8>,
    salt: Seq<u8>,
    m_cost: u32,
    t_cost: u32,
    p_cost: u32,
) -> Result<Seq<u8>, Failure> {
    if let Some(fault) = cost_fault(m_cost, t_cost, p_cost) {
        Err(Failure::BadParameters(fault))
    } else if let Some(fault) = input_fault(password, salt) {
        Err(Failure::KeyDerivation(fault))
    } else {
        Ok(argon2id(password, salt, m_cost, t_cost, p_cost))
    }
}

/// `argon2::Params::new` with an output length of 32: it accepts the costs, or names the first of
/// the four faults that they have. The product of eight and the lanes is taken in 32 bits there
/// and has to fit.
#[verifier::external_body]
fn check_costs(m_cost: u32, t_cost: u32, p_cost: u32) -> (r: Result<(), KdfFault>)
    requires
        8 * p_cost <= u32::MAX,
    ensures
        r == match cost_fault(m_cost, t_cost, p_cost) {
            Some(fault) => Err::<(), KdfFault>(fault),
            None => Ok(()),
        },
{
    match argon2::Params::new(m_cost, t_cost, p_cost, Some(32)) {
        Ok(_) => Ok(()),
        Err(argon2::Error::MemoryTooLittle) => Err(KdfFault::MemoryTooLittle),
        Err(argon2::Error::TimeTooSmall) => Err(KdfFault::TimeTooSmall),
        Err(argon2::Error::ThreadsTooFew) => Err(KdfFault::ThreadsTooFew),
        Err(argon2::Error::ThreadsTooMany) => Err(KdfFault::ThreadsTooMany),
        Err(_) => Err(KdfFault::Other),
    }
}

/// `argon2::Argon2::hash_password_into`, as Argon2id of version 0x13 with 32 bytes of output: it
/// refuses a password or a salt for its length alone, and the bytes that it writes depend on its
/// arguments alone. It allocates about `m_cost` KiB of memory; where that much cannot be had, the
/// process ends.
#[verifier::external_body]
fn hash_password(password: &[u8], salt: &[u8], m_cost: u32, t_cost: u32, p_cost: u32) -> (r: Result<
    [u8; 32],
    KdfFault,
>)
    requires
        cost_fault(m_cost, t_cost, p_cost) is None,
    ensures
        match input_fault(password@, salt@) {
            Some(fault) => r == Err::<[u8; 32], KdfFault>(fault),
            None => r matches Ok(key) && key@ == argon2id(password@, salt@, m_cost, t_cost, p_cost),
        },
{
    let mut key = [0u8; 32];
    let hashed = match argon2::Params::new(m_cost, t_cost, p_cost, Some(32)) {
        Ok(params) => argon2::Argon2::new(Algorithm::Argon2id, Version::V0x13, params)
            .hash_password_into(password, salt, &mut key),
        Err(e) => Err(e),
    };
    match hashed {
        Ok(()) => Ok(key),
        Err(argon2::Error::PwdTooLong) => Err(KdfFault::PasswordTooLong),
        Err(argon2::Error::SaltTooShort) => Err(KdfFault::SaltTooShort),
        Err(argon2::Error::SaltTooLong) => Err(KdfFault::SaltTooLong),
        Err(_) => Err(KdfFault::Other),
    }
}

/// Derives the key that `password` gives with `salt` at these costs.
pub fn derive_key(password: &str, salt: &[u8], m_cost: u32, t_cost: u32, p_cost: u32) -> (r: Result<
    [u8; 32],
    Failure,
>)
    ensures
        match key_of(utf8::encode_utf8(password@), salt@, m_cost, t_cost, p_cost) {
            Ok(k) => r matches Ok(key) && key@ == k,
            Err(e) => r == Err::<[u8; 32], Failure>(e),
        },
{
    // Eight times this many lanes is more memory than any cost can grant.
    if p_cost > 0x1fff_ffff {
        return Err(Failure::BadParameters(KdfFault::MemoryTooLittle));
    }
    if let Err(fault) = check_costs(m_cost, t_cost, p_cost) {
        return Err(Failure::BadParameters(fault));
    }
    match hash_password(password.as_bytes(), salt, m_cost, t_cost, p_cost) {
        Ok(key) => Ok(key),
        Err(fault) => Err(Failure::KeyDerivation(fault)),
    }
}

/// A key is had exactly where Argon2's bounds are kept: at least eight blocks of memory, and eight for
/// each lane, one pass, and one lane, no more than 2^24 - 1 lanes, and a password and a salt that are
/// not too long or too short. It is then the hash of the whole password and the whole salt, at just
/// these costs.
pub proof fn key_is_had_within_bounds(
    password: Seq<u8>,
    salt: Seq<u8>,
    m_cost: u32,
    t_cost: u32,
    p_cost: u32,
)
    ensures
        ({
            let key = key_of(password, salt, m_cost, t_cost, p_cost);
            &&& key is Ok == (8 <= m_cost && 8 * p_cost <= m_cost && 1 <= t_cost && 1 <= p_cost
                <= 16777215 && password.len() < 4294967296 && 8 <= salt.len() < 4294967296)
            &&& key is Ok ==> key->Ok_0 == argon2id(password, salt, m_cost, t_cost, p_cost)
        }),
{
}

/// The first bound that is not kept, in the order of memory, passes, too few lanes, too many lanes,
/// password, short salt, long salt, is the one that is told. Those on costs are told as bad parameters.
pub proof fn first_fault_is_told(
    password: Seq<u8>,
    salt: Seq<u8>,
    m_cost: u32,
    t_cost: u32,
    p_cost: u32,
)
    ensures
        key_of(password, salt, m_cost, t_cost, p_cost) matches Err(e) ==> {
            let memory = 8 <= m_cost && 8 * p_cost <= m_cost;
            match e {
                Failure::BadParameters(KdfFault::MemoryTooLittle) => !memory,
                Failure::BadParameters(KdfFault::TimeTooSmall) => memory && t_cost == 0,
                Failure::BadParameters(KdfFault::ThreadsTooFew) => memory && t_cost > 0 && p_cost
                    == 0,
                Failure::BadParameters(KdfFault::ThreadsTooMany) => memory && t_cost > 0 && p_cost
                    > 16777215,
                Failure::KeyDerivation(KdfFault::PasswordTooLong) => memory && t_cost > 0 && 0
                    < p_cost <= 16777215 && password.len() >= 4294967296,
                Failure::KeyDerivation(KdfFault::SaltTooShort) => memory && t_cost > 0 && 0
                    < p_cost <= 16777215 && password.len() < 4294967296 && salt.len() < 8,
                Failure::KeyDerivation(KdfFault::SaltTooLong) => memory && t_cost > 0 && 0
                    < p_cost <= 16777215 && password.len() < 4294967296 && salt.len()
                    >= 4294967296,
                _ => false,
            }
        },
{
}

} // verus!
