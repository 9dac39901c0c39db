//! How arguments are laid out for a call into the script machine's native
//! functions, and how an id list it fills is read back.

use vstd::prelude::*;

verus! {

/// The parameter frame of a native call with `args`: the size of the
/// arguments in bytes, then the arguments.
pub fn native_params(args: &[i32]) -> (params: Vec<i32>)
    requires
        args@.len() * 4 <= i32::MAX,
    ensures
        params@ == seq![(args@.len() * 4) as i32] + args@,
{
    let mut params: Vec<i32> = Vec::new();
    params.push((args.len() * 4) as i32);
    let mut i: usize = 0;
    while i < args.len()
        invariant
            i <= args@.len(),
            args@.len() * 4 <= i32::MAX,
            params@ == seq![(args@.len() * 4) as i32] + args@.take(i as int),
        decreases args@.len() - i,
    {
        params.push(args[i]);
        assert(args@.take(i + 1) =~= args@.take(i as int).push(args@[i as int]));
        i = i + 1;
    }
    assert(args@.take(args@.len() as int) =~= args@);
    params
}

/// The ids a native wrote to `buffer`, given the count it returned: the
/// first `count` of them, and no more than the buffer holds (a negative
/// count, taken as an unsigned size, exceeds any buffer).
pub fn returned_ids(buffer: &[i32], count: i32) -> (ids: Vec<i32>)
    ensures
        ids@ == buffer@.take(if count < 0 || count > buffer@.len() { buffer@.len() as int } else { count as int }),
{
    let n: usize = if count < 0 {
        buffer.len()
    } else if (count as usize) > buffer.len() {
        buffer.len()
    } else {
        count as usize
    };
    let mut ids: Vec<i32> = Vec::new();
    let mut i: usize = 0;
    while i < n
        invariant
            n <= buffer@.len(),
            i <= n,
            ids@ == buffer@.take(i as int),
        decreases n - i,
    {
        ids.push(buffer[i]);
        assert(buffer@.take(i + 1) =~= buffer@.take(i as int).push(buffer@[i as int]));
        i = i + 1;
    }
    ids
}

} // verus!
