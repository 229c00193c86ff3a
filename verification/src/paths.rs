//! Executable construction of path text: decimal indices, dot-joined
//! keys and bracketed array positions.

use vstd::prelude::*;
use vstd::string::StringExecFns;
use crate::model::{dec_digits, digit_char, index_path, key_path};

verus! {

/// One decimal digit as text.
fn digit_str(d: usize) -> (r: &'static str)
    requires
        d < 10,
    ensures
        r@ == seq![digit_char(d as int)],
{
    proof {
        reveal_strlit("0");
        reveal_strlit("1");
        reveal_strlit("2");
        reveal_strlit("3");
        reveal_strlit("4");
        reveal_strlit("5");
        reveal_strlit("6");
        reveal_strlit("7");
        reveal_strlit("8");
        reveal_strlit("9");
    }
    let r: &'static str = match d {
        0 => "0",
        1 => "1",
        2 => "2",
        3 => "3",
        4 => "4",
        5 => "5",
        6 => "6",
        7 => "7",
        8 => "8",
        _ => "9",
    };
    proof {
        assert(r@ =~= seq![digit_char(d as int)]);
    }
    r
}

/// Decimal text of `n` (`dec_digits` on the view).
pub fn dec_string(n: usize) -> (r: String)
    ensures
        r@ == dec_digits(n as nat),
    decreases n,
{
    if n < 10 {
        let r = String::from_str(digit_str(n));
        proof {
            assert(r@ =~= dec_digits(n as nat));
        }
        r
    } else {
        let r = dec_string(n / 10).concat(digit_str(n % 10));
        proof {
            assert(r@ =~= dec_digits(n as nat));
        }
        r
    }
}

/// Path of the entry under key `k` below the node at `p` (`key_path` on
/// the views): the key itself at the root, dot-joined below it.
pub fn key_path_exec(p: &String, k: &String) -> (r: String)
    ensures
        r@ == key_path(p@, k@),
{
    if p.as_str().is_empty() {
        let r = k.clone();
        proof {
            assert(r@ =~= key_path(p@, k@));
        }
        r
    } else {
        proof {
            reveal_strlit(".");
        }
        let r = p.clone().concat(".").concat(k.as_str());
        proof {
            assert("."@ =~= seq!['.']);
            assert(r@ =~= key_path(p@, k@));
        }
        r
    }
}

/// Path of the element at index `i` below the node at `p` (`index_path`
/// on the views).
pub fn index_path_exec(p: &String, i: usize) -> (r: String)
    ensures
        r@ == index_path(p@, i as nat),
{
    proof {
        reveal_strlit("[");
        reveal_strlit("]");
    }
    let digits = dec_string(i);
    let r = p.clone().concat("[").concat(digits.as_str()).concat("]");
    proof {
        assert("["@ =~= seq!['[']);
        assert("]"@ =~= seq![']']);
        assert(r@ =~= index_path(p@, i as nat));
    }
    r
}

} // verus!
