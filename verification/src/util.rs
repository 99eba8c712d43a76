//! A checked comparison of a value's wire text against its expected bytes.

use vstd::prelude::*;
use crate::resp::{RespData, encode_spec};

verus! {

/// Checks that `value` encodes exactly to `repr`: the wire text of
/// `value`, character by character, must be the bytes of `repr`. The
/// caller owes that match; under it the encoder is proved to reproduce
/// `repr`, so the check cannot fail.
pub fn assert_format_repr(value: &RespData, repr: &[u8])
    requires
        encode_spec(value@) == repr@.map_values(|b: u8| b as char),
{
    let mut buffer = String::new();
    value.write(&mut buffer);
    proof {
        assert(buffer@ == repr@.map_values(|b: u8| b as char));
    }
}

} // verus!
