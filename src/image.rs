//! Values that writing an image derives from the partition table.

use vstd::prelude::*;

use crate::apply::concat;
use crate::text::{push_str, strip_prefix};

verus! {

/// The `PARTUUID=` value of the root file system (partition 5), given the
/// disk identifier as `sfdisk --disk-id` prints it (`0x` and hex digits);
/// `None` when it does not start with `0x`.
pub fn root_partuuid(disk_id_output: &str) -> (r: Option<String>)
    ensures
        match r {
            Some(v) => exists|id: Seq<char>| disk_id_output@ == "0x"@ + id && v@ == "PARTUUID="@ + id + "-05"@,
            None => !"0x"@.is_prefix_of(disk_id_output@),
        },
{
    match strip_prefix(disk_id_output, "0x") {
        Some(id) => {
            let mut v = concat("PARTUUID=", id);
            push_str(&mut v, "-05");
            Some(v)
        },
        None => None,
    }
}

} // verus!
