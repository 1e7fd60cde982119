//! Strings and their bytes.

use crate::keys::bytes_equal;
use vstd::prelude::*;
use vstd::slice::slice_to_vec;
use vstd::utf8::{decode_utf8, encode_utf8, valid_utf8};

verus! {

/// The text that the standard library's lossy UTF-8 conversion makes of
/// `bytes`, with replacement characters where they are not UTF-8.
pub uninterp spec fn lossy_text(bytes: Seq<u8>) -> Seq<char>;

/// `String::from_utf8_lossy`, as an owned string. Its result depends on the
/// bytes alone, and is their exact decoding where they are UTF-8.
#[verifier::external_body]
pub(crate) fn text_from_bytes(bytes: &[u8]) -> (text: String)
    ensures
        text@ == lossy_text(bytes@),
        valid_utf8(bytes@) ==> text@ == decode_utf8(bytes@),
{
    String::from_utf8_lossy(bytes).into_owned()
}

/// `String::push` appends one character.
pub assume_specification[ String::push ](text: &mut String, c: char)
    ensures
        final(text)@ == old(text)@.push(c),
;

/// A path as the index stores it: as it is if it is UTF-8, and otherwise with
/// replacement characters for whatever in it is not.
pub open spec fn stored_path(path: Seq<u8>) -> Seq<u8> {
    if valid_utf8(path) {
        path
    } else {
        encode_utf8(lossy_text(path))
    }
}

/// A stored path is UTF-8, and storing it again changes nothing.
pub proof fn stored_path_is_stable(path: Seq<u8>)
    ensures
        valid_utf8(stored_path(path)),
        stored_path(stored_path(path)) == stored_path(path),
{
    vstd::utf8::encode_utf8_valid_utf8(lossy_text(path));
}

/// The bytes under which `path` is stored.
pub fn store_path(path: &[u8]) -> (stored: Vec<u8>)
    ensures
        stored@ == stored_path(path@),
{
    let text = text_from_bytes(path);
    proof {
        if valid_utf8(path@) {
            vstd::utf8::decode_utf8_encode_utf8(path@);
        }
    }
    slice_to_vec(text.as_str().as_bytes())
}

/// Whether two strings are equal.
pub fn text_equal(a: &str, b: &str) -> (equal: bool)
    ensures
        equal == (a@ == b@),
{
    proof {
        vstd::utf8::encode_utf8_decode_utf8(a@);
        vstd::utf8::encode_utf8_decode_utf8(b@);
    }
    bytes_equal(a.as_bytes(), b.as_bytes())
}

/// What a list of strings stands for.
pub open spec fn texts(list: Seq<String>) -> Seq<Seq<char>> {
    list.map_values(|s: String| s@)
}

/// The decimal digit `d`.
pub open spec fn digit(d: int) -> char {
    (48 + d) as char
}

/// `n` in decimal.
pub open spec fn decimal(n: nat) -> Seq<char>
    decreases n,
{
    if n < 10 {
        seq![digit(n as int)]
    } else {
        decimal(n / 10).push(digit((n % 10) as int))
    }
}

/// Appends `n` in decimal.
pub fn push_decimal(out: &mut String, n: u64)
    ensures
        final(out)@ == old(out)@ + decimal(n as nat),
    decreases n,
{
    let ghost base = out@;
    if n >= 10 {
        push_decimal(out, n / 10);
    }
    let low: u8 = (n % 10) as u8;
    out.push((48 + low) as char);
    assert(out@ =~= base + decimal(n as nat));
}

/// A list of strings stands for its strings, one by one.
pub proof fn texts_show_every_string(list: Seq<String>)
    ensures
        texts(list).len() == list.len(),
        forall|i: int| 0 <= i < list.len() ==> #[trigger] texts(list)[i] == list[i]@,
{
}

/// Numbers are written in decimal, without leading zeros: a number below ten is
/// its digit, and any other is a tenth of it, rounded down, followed by the digit
/// that is left.
pub proof fn decimals_are_positional(n: nat, d: nat)
    requires
        d < 10,
    ensures
        decimal(d) == seq![(48 + d) as char],
        n > 0 ==> decimal(10 * n + d) == decimal(n).push((48 + d) as char),
{
    if n > 0 {
        let m: nat = 10 * n + d;
        assert(m / 10 == n && m % 10 == d);
    }
}

proof fn lemma_decimal_digits(n: nat)
    ensures
        decimal(n).len() > 0,
        forall|i: int| 0 <= i < decimal(n).len() ==> '0' <= #[trigger] decimal(n)[i] <= '9',
        n > 0 ==> decimal(n)[0] != '0',
    decreases n,
{
    if n >= 10 {
        lemma_decimal_digits(n / 10);
    }
}

/// Different numbers are written differently, and in digits alone.
pub proof fn decimals_tell_numbers_apart(m: nat, n: nat)
    ensures
        decimal(m) == decimal(n) <==> m == n,
        decimal(n).len() > 0,
        forall|i: int| 0 <= i < decimal(n).len() ==> '0' <= #[trigger] decimal(n)[i] <= '9',
        n > 0 ==> decimal(n)[0] != '0',
    decreases m,
{
    lemma_decimal_digits(m);
    lemma_decimal_digits(n);
    if decimal(m) == decimal(n) {
        let (a, b) = (decimal(m), decimal(n));
        assert(a.last() == b.last());
        assert(m % 10 == n % 10);
        if m >= 10 && n >= 10 {
            assert(decimal(m / 10) =~= a.drop_last());
            assert(decimal(n / 10) =~= b.drop_last());
            decimals_tell_numbers_apart(m / 10, n / 10);
        } else if m >= 10 {
            lemma_decimal_digits(m / 10);
        } else if n >= 10 {
            lemma_decimal_digits(n / 10);
        }
    }
}

/// A path that is UTF-8 is stored as it is, and any other as the bytes of its
/// text.
pub proof fn utf8_paths_are_stored_as_they_are(path: Seq<u8>)
    ensures
        valid_utf8(path) ==> stored_path(path) == path,
        !valid_utf8(path) ==> stored_path(path) == encode_utf8(lossy_text(path)),
{
}

} // verus!
