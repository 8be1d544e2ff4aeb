//! The alphabet the lexer works over.

use vstd::prelude::*;
use crate::text::chars_of;

verus! {

/// Every character the lexer knows, in order: upper- and lower-case letters, digits, the
/// symbols `+-*/=;.,(){}[]_<>!:"\\|&%?#^$'`, accented letters, then space, tab, line feed and
/// carriage return.
pub open spec fn alphabet() -> Seq<char> {
    "ABCDEFGHIJKLMNOPQRSTUVWXYZabcdefghijklmnopqrstuvwxyz0123456789+-*/=;.,(){}[]_<>!:\"\\|&%?#^$'áéíóúÁÉÍÓÚñÑüÜ \t\n\r"@
}

/// The alphabet, in order.
pub fn alphabet_chars() -> (v: Vec<char>)
    ensures
        v@ == alphabet(),
{
    chars_of("ABCDEFGHIJKLMNOPQRSTUVWXYZabcdefghijklmnopqrstuvwxyz0123456789+-*/=;.,(){}[]_<>!:\"\\|&%?#^$'áéíóúÁÉÍÓÚñÑüÜ \t\n\r")
}

/// Whether a character occurs in a list.
pub fn contains_char(v: &Vec<char>, c: char) -> (b: bool)
    ensures
        b == v@.contains(c),
{
    let mut i: usize = 0;
    while i < v.len()
        invariant
            i <= v@.len(),
            forall|j: int| 0 <= j < i ==> v@[j] != c,
        decreases v@.len() - i,
    {
        if v[i] == c {
            return true;
        }
        i += 1;
    }
    false
}

} // verus!
