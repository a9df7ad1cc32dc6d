//! The names of the files of an index: `map.N` and `shard.N` for the shard
//! `N`, under the root of the index.

use vstd::prelude::*;
use vstd::string::*;

verus! {

/// The character of a decimal digit.
pub open spec fn digit(d: nat) -> char {
    seq!['0', '1', '2', '3', '4', '5', '6', '7', '8', '9'][d as int]
}

/// The decimal form of a number, without leading zeros.
pub open spec fn digits_of(n: nat) -> Seq<char>
    decreases n,
{
    if n < 10 {
        seq![digit(n)]
    } else {
        digits_of(n / 10).push(digit(n % 10))
    }
}

/// The name of the map of a shard under the root of an index.
pub open spec fn map_name(root: Seq<char>, shard: u32) -> Seq<char> {
    root + seq!['/', 'm', 'a', 'p', '.'] + digits_of(shard as nat)
}

/// The name of the posting file of a shard under the root of an index.
pub open spec fn shard_name(root: Seq<char>, shard: u32) -> Seq<char> {
    root + seq!['/', 's', 'h', 'a', 'r', 'd', '.'] + digits_of(shard as nat)
}

/// The decimal form of a number denotes the number: reading it as
/// `crate::builder::decimal` does gives the number back.
pub proof fn lemma_digits_denote(n: nat)
    ensures
        crate::builder::decimal(digits_of(n)) == n,
        digits_of(n).len() > 0,
        forall|i: int| 0 <= i < digits_of(n).len() ==> crate::builder::is_digit(
            #[trigger] digits_of(n)[i],
        ),
    decreases n,
{
    reveal_with_fuel(crate::builder::decimal, 2);
    if n < 10 {
        assert(digits_of(n).drop_last() =~= Seq::<char>::empty());
    } else {
        lemma_digits_denote(n / 10);
        assert(digits_of(n).drop_last() =~= digits_of(n / 10));
        assert forall|i: int| 0 <= i < digits_of(n).len() implies crate::builder::is_digit(
            #[trigger] digits_of(n)[i],
        ) by {
            if i < digits_of(n).len() - 1 {
                assert(digits_of(n)[i] == digits_of(n / 10)[i]);
            }
        }
    }
}

/// One decimal digit as a string.
fn digit_str(d: u32) -> (s: &'static str)
    requires
        d < 10,
    ensures
        s@ == seq![digit(d as nat)],
{
    proof {
        reveal_strlit("0");
        reveal_strlit("1");
        reveal_strlit("2");
        reveal_strlit("3");
        reveal_strlit("4");
        reveal_strlit("5");
        reveal_strlit("6");
        reveal_strlit("7");
        reveal_strlit("8");
        reveal_strlit("9");
    }
    let s: &'static str = match d {
        0 => "0",
        1 => "1",
        2 => "2",
        3 => "3",
        4 => "4",
        5 => "5",
        6 => "6",
        7 => "7",
        8 => "8",
        _ => "9",
    };
    assert(s@ =~= seq![digit(d as nat)]);
    s
}

/// Appends the decimal form of a number to a string.
pub fn push_decimal(out: &mut String, n: u32)
    ensures
        final(out)@ == old(out)@ + digits_of(n as nat),
    decreases n,
{
    if n >= 10 {
        push_decimal(out, n / 10);
    }
    out.append(digit_str(n % 10));
    assert(out@ =~= old(out)@ + digits_of(n as nat));
}

/// The name of the map of a shard under the root of an index.
pub fn map_path(root: &str, shard: u32) -> (path: String)
    ensures
        path@ == map_name(root@, shard),
{
    proof {
        reveal_strlit("/map.");
    }
    let mut path: String = root.to_owned();
    path.append("/map.");
    assert(path@ =~= root@ + seq!['/', 'm', 'a', 'p', '.']);
    push_decimal(&mut path, shard);
    path
}

/// The name of the posting file of a shard under the root of an index.
pub fn shard_path(root: &str, shard: u32) -> (path: String)
    ensures
        path@ == shard_name(root@, shard),
{
    proof {
        reveal_strlit("/shard.");
    }
    let mut path: String = root.to_owned();
    path.append("/shard.");
    assert(path@ =~= root@ + seq!['/', 's', 'h', 'a', 'r', 'd', '.']);
    push_decimal(&mut path, shard);
    path
}

} // verus!
