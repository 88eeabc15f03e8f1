use vstd::prelude::*;
use vstd::utf8::{valid_utf8, decode_utf8};
use crate::reach::decimal_value;
use crate::ephemeron::is_digit;

verus! {

/// `String::from_utf8_lossy`, owned: on valid UTF-8 the string holds
/// exactly the characters that the bytes encode (invalid sequences, which
/// the library never hands it, become U+FFFD and are not described here).
#[verifier::external_body]
pub fn text_of(bytes: &[u8]) -> (r: String)
    ensures
        valid_utf8(bytes@) ==> r@ == decode_utf8(bytes@),
{
    String::from_utf8_lossy(bytes).into_owned()
}

/// The decimal digits of `n`, most significant first, without leading zeros
/// (a single `0` for zero).
pub open spec fn decimal_of(n: u32) -> Seq<u8>
    decreases n,
{
    if n < 10 {
        seq![(48 + n % 10) as u8]
    } else {
        decimal_of(n / 10).push((48 + n % 10) as u8)
    }
}

/// The decimal digits of `n`, most significant first, without leading zeros
/// (a single `0` for zero).
pub fn decimal_bytes(n: u32) -> (r: Vec<u8>)
    ensures
        r@ == decimal_of(n),
        r@.len() > 0,
        forall|i: int| 0 <= i < r@.len() ==> is_digit(#[trigger] r@[i]),
        decimal_value(r@) == n,
    decreases n,
{
    let d = (48 + n % 10) as u8;
    if n < 10 {
        let mut v: Vec<u8> = Vec::new();
        v.push(d);
        proof {
            assert(v@ =~= seq![d]);
            assert(v@.drop_last() =~= Seq::<u8>::empty());
            assert(d == 48 + n % 10);
            assert(decimal_value(v@) == decimal_value(v@.drop_last()) * 10 + (v@.last() - 48) as nat);
        }
        v
    } else {
        let mut v = decimal_bytes(n / 10);
        let ghost before = v@;
        v.push(d);
        proof {
            assert(v@.drop_last() =~= before);
            assert(d == 48 + n % 10);
            assert(decimal_value(v@) == decimal_value(v@.drop_last()) * 10 + (v@.last() - 48) as nat);
            assert((n / 10) * 10 + n % 10 == n);
        }
        v
    }
}

} // verus!
