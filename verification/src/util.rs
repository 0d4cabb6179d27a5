//! Short texts for sizes and amounts of money.

use crate::binary64::Binary64;
use crate::decimal::{append_decimal, append_fixed, decimal, fixed};
use vstd::prelude::*;
use vstd::string::*;

verus! {

/// A number of bytes, scaled to the largest binary unit that it reaches.
pub open spec fn bytes_text(b: nat) -> Seq<char> {
    let n = Binary64::whole(b as int);
    if Binary64::whole(1_073_741_824).at_most(n) {
        fixed(n.over_spec(Binary64::whole(1_073_741_824)), 1, false) + "GB"@
    } else if Binary64::whole(1_048_576).at_most(n) {
        fixed(n.over_spec(Binary64::whole(1_048_576)), 1, false) + "MB"@
    } else if Binary64::whole(1024).at_most(n) {
        fixed(n.over_spec(Binary64::whole(1024)), 1, false) + "KB"@
    } else {
        decimal(b) + "B"@
    }
}

/// 1234567 bytes are "1.2MB", 999 bytes are "999B".
pub fn format_bytes(b: u64) -> (r: String)
    ensures
        r@ == bytes_text(b as nat),
{
    let n = Binary64::from_natural(b);
    let giga = Binary64::from_whole(1_073_741_824);
    let mega = Binary64::from_whole(1_048_576);
    let kilo = Binary64::from_whole(1024);
    let mut out = String::new();
    if giga.is_at_most(n) {
        append_fixed(&mut out, n.over(giga), 1, false);
        out.append("GB");
    } else if mega.is_at_most(n) {
        append_fixed(&mut out, n.over(mega), 1, false);
        out.append("MB");
    } else if kilo.is_at_most(n) {
        append_fixed(&mut out, n.over(kilo), 1, false);
        out.append("KB");
    } else {
        append_decimal(&mut out, b as u128);
        out.append("B");
    }
    assert(out@ =~= bytes_text(b as nat));
    out
}

/// An amount of dollars, scaled to the largest of billions, millions and thousands that it
/// reaches.
pub open spec fn usd_text(v: Binary64) -> Seq<char> {
    if Binary64::whole(1_000_000_000).at_most(v) {
        "$"@ + fixed(v.over_spec(Binary64::whole(1_000_000_000)), 2, false) + "B"@
    } else if Binary64::whole(1_000_000).at_most(v) {
        "$"@ + fixed(v.over_spec(Binary64::whole(1_000_000)), 2, false) + "M"@
    } else if Binary64::whole(1_000).at_most(v) {
        "$"@ + fixed(v.over_spec(Binary64::whole(1_000)), 1, false) + "k"@
    } else {
        "$"@ + fixed(v, 0, false)
    }
}

/// 1234567 dollars are "$1.23M", 456700 dollars are "$456.7k".
pub fn format_usd(v: Binary64) -> (r: String)
    ensures
        r@ == usd_text(v),
{
    let billion = Binary64::from_whole(1_000_000_000);
    let million = Binary64::from_whole(1_000_000);
    let thousand = Binary64::from_whole(1_000);
    let mut out = String::new();
    out.append("$");
    if billion.is_at_most(v) {
        append_fixed(&mut out, v.over(billion), 2, false);
        out.append("B");
    } else if million.is_at_most(v) {
        append_fixed(&mut out, v.over(million), 2, false);
        out.append("M");
    } else if thousand.is_at_most(v) {
        append_fixed(&mut out, v.over(thousand), 1, false);
        out.append("k");
    } else {
        append_fixed(&mut out, v, 0, false);
    }
    assert(out@ =~= usd_text(v));
    out
}

} // verus!
