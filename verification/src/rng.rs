use vstd::prelude::*;

verus! {

/// Relies on getrandom::fill: it fills the whole buffer with bytes from the
/// system's random source and reports failure through its result. Nothing is
/// promised of the contents — on failure they are explicitly unspecified, and
/// even on success they are random — so the contract only keeps the length.
#[verifier::external_body]
pub(crate) fn fill_random(buf: &mut Vec<u8>) -> (ok: bool)
    ensures
        final(buf)@.len() == old(buf)@.len(),
{
    getrandom::fill(buf.as_mut_slice()).is_ok()
}

/// A number below `upper_lim_exclusive`, drawn from the system's random
/// source. If the source fails, the bytes the buffer happens to hold are
/// used instead, so the result is still in range.
pub fn random_below(upper_lim_exclusive: usize) -> (r: usize)
    requires
        upper_lim_exclusive >= 1,
    ensures
        r < upper_lim_exclusive,
{
    let mut buf: Vec<u8> = Vec::new();
    let mut i: usize = 0;
    while i < 8
        invariant
            buf@.len() == i,
            i <= 8,
        decreases 8 - i,
    {
        buf.push(0u8);
        i = i + 1;
    }
    let _ok = fill_random(&mut buf);
    let mut value: u64 = 0;
    let mut j: usize = 0;
    while j < 8
        invariant
            buf@.len() == 8,
            j <= 8,
        decreases 8 - j,
    {
        value = (value << 8) | (buf[j] as u64);
        j = j + 1;
    }
    let m = value % (upper_lim_exclusive as u64);
    m as usize
}

/// A byte below `upper_lim_exclusive`, drawn from the system's random source.
pub fn random_u8_below(upper_lim_exclusive: u8) -> (r: u8)
    requires
        upper_lim_exclusive >= 1,
    ensures
        r < upper_lim_exclusive,
{
    let mut buf: Vec<u8> = Vec::new();
    buf.push(0u8);
    let _ok = fill_random(&mut buf);
    buf[0] % upper_lim_exclusive
}

} // verus!
