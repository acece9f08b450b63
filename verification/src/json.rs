//! JSON text: how numbers and the fixed words are written, and the writers
//! that append them to the output. A float is known here by its bits alone:
//! its text is what the caller's way of writing floats gives it.

use nyoom_json::WriteToJson;
use vstd::prelude::*;
use vstd::string::StringExecFns;

verus! {

/// The decimal digit for `d`, which is below 10.
pub open spec fn digit(d: int) -> char {
    seq!['0', '1', '2', '3', '4', '5', '6', '7', '8', '9'][d]
}

/// The decimal digits of `n`, without leading zeros.
pub open spec fn digits(n: nat) -> Seq<char>
    decreases n,
{
    if n < 10 {
        seq![digit(n as int)]
    } else {
        digits(n / 10) + seq![digit(n as int % 10)]
    }
}

/// The number `v` in decimal, with a minus sign where it is negative.
pub open spec fn decimal(v: int) -> Seq<char> {
    if v < 0 {
        seq!['-'] + digits((-v) as nat)
    } else {
        digits(v as nat)
    }
}

/// The JSON word for a boolean.
pub open spec fn bool_text(v: bool) -> Seq<char> {
    if v {
        seq!['t', 'r', 'u', 'e']
    } else {
        seq!['f', 'a', 'l', 's', 'e']
    }
}

/// The JSON word for nothing.
pub open spec fn null_text() -> Seq<char> {
    seq!['n', 'u', 'l', 'l']
}

/// `s` between double quotes, as it is.
pub open spec fn quoted(s: Seq<char>) -> Seq<char> {
    seq!['"'] + s + seq!['"']
}

/// A float by its IEEE 754 bit pattern.
#[derive(Clone, Copy, Debug)]
pub enum Float {
    Single(u32),
    Double(u64),
}

/// Whether `render` can stand for a way of writing floats: it takes every
/// float, and what it returns depends on the float alone.
pub open spec fn renders<F: Fn(Float) -> String>(render: F) -> bool {
    &&& forall|x: Float| render.requires((x,))
    &&& forall|x: Float, s: String, t: String|
        render.ensures((x,), s) && render.ensures((x,), t) ==> s@ == t@
}

/// The text that `render` gives each float.
pub open spec fn rendering<F: Fn(Float) -> String>(render: F) -> spec_fn(Float) -> Seq<char> {
    |x: Float| (choose|s: String| render.ensures((x,), s))@
}

/// Calls nyoom_json's `write_to_json` on a `u64`, which appends the number
/// in decimal.
#[verifier::external_body]
pub(crate) fn write_u64(out: &mut String, v: u64)
    ensures
        final(out)@ == old(out)@ + decimal(v as int),
{
    v.write_to_json(out)
}

/// Calls nyoom_json's `write_to_json` on an `i64`, which appends the number
/// in decimal, with a minus sign where it is negative.
#[verifier::external_body]
pub(crate) fn write_i64(out: &mut String, v: i64)
    ensures
        final(out)@ == old(out)@ + decimal(v as int),
{
    v.write_to_json(out)
}

/// Calls nyoom_json's `write_to_json` on a `bool`, which appends `true` or
/// `false`.
#[verifier::external_body]
pub(crate) fn write_bool(out: &mut String, v: bool)
    ensures
        final(out)@ == old(out)@ + bool_text(v),
{
    v.write_to_json(out)
}

/// Calls nyoom_json's `write_to_json` on its `Null`, which appends `null`.
#[verifier::external_body]
pub(crate) fn write_null(out: &mut String)
    ensures
        final(out)@ == old(out)@ + null_text(),
{
    nyoom_json::Null.write_to_json(out)
}

/// Appends `s` between double quotes, as it is.
pub fn write_quoted(out: &mut String, s: &str)
    ensures
        final(out)@ == old(out)@ + quoted(s@),
{
    proof {
        reveal_strlit("\"");
    }
    out.append("\"");
    out.append(s);
    out.append("\"");
    assert(out@ =~= old(out)@ + quoted(s@));
}

/// Appends the text that `render` gives the float `x`.
pub fn write_float<F: Fn(Float) -> String>(out: &mut String, x: Float, render: &F)
    requires
        renders(*render),
    ensures
        final(out)@ == old(out)@ + rendering(*render)(x),
{
    let text = render(x);
    out.append(text.as_str());
}

} // verus!
