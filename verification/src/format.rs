//! Sizes for people to read.
use vstd::prelude::*;
use vstd::string::StringExecFns;

use crate::text;

verus! {

pub const KIB: u64 = 0x400;

pub const MIB: u64 = 0x10_0000;

pub const GIB: u64 = 0x4000_0000;

pub const TIB: u64 = 0x100_0000_0000;

pub const PIB: u64 = 0x4_0000_0000_0000;

pub const EIB: u64 = 0x1000_0000_0000_0000;

/// A size in a unit, to the nearest tenth.
pub open spec fn in_unit(bytes: u64, unit: u64, name: Seq<char>) -> Seq<char> {
    let tenths = (10 * bytes + unit / 2) / unit as int;
    text::decimal((tenths / 10) as nat) + "."@ + text::decimal((tenths % 10) as nat) + name
}

/// A size in the largest binary unit that it reaches; small ones in bytes.
pub open spec fn size_text(bytes: u64) -> Seq<char> {
    if bytes < KIB {
        text::decimal(bytes as nat) + " B"@
    } else if bytes < MIB {
        in_unit(bytes, KIB, " KiB"@)
    } else if bytes < GIB {
        in_unit(bytes, MIB, " MiB"@)
    } else if bytes < TIB {
        in_unit(bytes, GIB, " GiB"@)
    } else if bytes < PIB {
        in_unit(bytes, TIB, " TiB"@)
    } else if bytes < EIB {
        in_unit(bytes, PIB, " PiB"@)
    } else {
        in_unit(bytes, EIB, " EiB"@)
    }
}

fn write_in_unit(bytes: u64, unit: u64, name: &str) -> (text: String)
    requires
        unit > 0,
    ensures
        text@ == in_unit(bytes, unit, name@),
{
    let tenths: u128 = (10 * bytes as u128 + (unit / 2) as u128) / unit as u128;
    let mut text = String::new();
    assert(text@ =~= Seq::empty());
    text::push_decimal(&mut text, tenths / 10);
    text.append(".");
    text::push_decimal(&mut text, tenths % 10);
    text.append(name);
    assert(text@ =~= in_unit(bytes, unit, name@));
    text
}

/// A size in the largest binary unit that it reaches.
pub fn format_size(bytes: u64) -> (text: String)
    ensures
        text@ == size_text(bytes),
{
    if bytes < KIB {
        let mut text = String::new();
        text::push_number(&mut text, bytes);
        text.append(" B");
        assert(text@ =~= text::decimal(bytes as nat) + " B"@);
        text
    } else if bytes < MIB {
        write_in_unit(bytes, KIB, " KiB")
    } else if bytes < GIB {
        write_in_unit(bytes, MIB, " MiB")
    } else if bytes < TIB {
        write_in_unit(bytes, GIB, " GiB")
    } else if bytes < PIB {
        write_in_unit(bytes, TIB, " TiB")
    } else if bytes < EIB {
        write_in_unit(bytes, PIB, " PiB")
    } else {
        write_in_unit(bytes, EIB, " EiB")
    }
}

/// Whether a text shows a size in tenths of a unit, the nearest ones.
pub open spec fn shows_in_tenths(
    shown: Seq<char>,
    bytes: u64,
    unit: int,
    name: Seq<char>,
    tenths: nat,
) -> bool {
    &&& shown == text::decimal(tenths / 10) + "."@ + text::decimal(tenths % 10) + name
    &&& 20 * bytes - unit < 2 * tenths * unit
    &&& 2 * tenths * unit <= 20 * bytes + unit
}

/// A size is shown in bytes below 1,024 of them, and from there on to the
/// nearest tenth of the largest unit that it reaches, each unit being 1,024 of
/// the one before.
pub proof fn sizes_are_shown_to_the_nearest_tenth(bytes: u64) -> (tenths: nat)
    ensures
        bytes < 1_024 ==> size_text(bytes) == text::decimal(bytes as nat) + " B"@,
        1_024 <= bytes < 1_048_576 ==> shows_in_tenths(
            size_text(bytes),
            bytes,
            1_024,
            " KiB"@,
            tenths,
        ),
        1_048_576 <= bytes < 1_073_741_824 ==> shows_in_tenths(
            size_text(bytes),
            bytes,
            1_048_576,
            " MiB"@,
            tenths,
        ),
        1_073_741_824 <= bytes < 1_099_511_627_776 ==> shows_in_tenths(
            size_text(bytes),
            bytes,
            1_073_741_824,
            " GiB"@,
            tenths,
        ),
        1_099_511_627_776 <= bytes < 1_125_899_906_842_624 ==> shows_in_tenths(
            size_text(bytes),
            bytes,
            1_099_511_627_776,
            " TiB"@,
            tenths,
        ),
        1_125_899_906_842_624 <= bytes < 1_152_921_504_606_846_976 ==> shows_in_tenths(
            size_text(bytes),
            bytes,
            1_125_899_906_842_624,
            " PiB"@,
            tenths,
        ),
        1_152_921_504_606_846_976 <= bytes ==> shows_in_tenths(
            size_text(bytes),
            bytes,
            1_152_921_504_606_846_976,
            " EiB"@,
            tenths,
        ),
{
    let unit: int = if bytes < 1_048_576 {
        1_024
    } else if bytes < 1_073_741_824 {
        1_048_576
    } else if bytes < 1_099_511_627_776 {
        1_073_741_824
    } else if bytes < 1_125_899_906_842_624 {
        1_099_511_627_776
    } else if bytes < 1_152_921_504_606_846_976 {
        1_125_899_906_842_624
    } else {
        1_152_921_504_606_846_976
    };
    let sum = 10 * bytes + unit / 2;
    let tenths = sum / unit;
    vstd::arithmetic::div_mod::lemma_fundamental_div_mod(sum, unit);
    assert(0 <= sum % unit < unit);
    assert(2 * tenths * unit == 2 * (unit * tenths)) by (nonlinear_arith);
    assert(tenths >= 0) by (nonlinear_arith)
        requires
            sum >= 0,
            unit > 0,
            tenths == sum / unit,
    ;
    tenths as nat
}

} // verus!
