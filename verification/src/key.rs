//! The keys under which blocks are cached.
use vstd::prelude::*;
use vstd::string::StringExecFns;

verus! {

/// The decimal digit of a number below ten.
pub open spec fn digit(d: nat) -> char {
    (48 + d) as char
}

/// A number in decimal, without leading zeros.
pub open spec fn decimal(n: nat) -> Seq<char>
    decreases n,
{
    if n < 10 {
        seq![digit(n)]
    } else {
        decimal(n / 10).push(digit(n % 10))
    }
}

/// The key of one block of an object: the object's path, an underscore and the
/// block's index in decimal.
pub open spec fn block_key(path: Seq<char>, block_index: nat) -> Seq<char> {
    path.push('_') + decimal(block_index)
}

/// A decimal has at least one character, and all of them are digits.
proof fn lemma_decimal_is_digits(n: nat)
    ensures
        decimal(n).len() > 0,
        forall|i: int| 0 <= i < decimal(n).len() ==> '0' <= #[trigger] decimal(n)[i] <= '9',
    decreases n,
{
    if n >= 10 {
        lemma_decimal_is_digits(n / 10);
    }
}

/// Different numbers have different decimals.
proof fn lemma_decimal_is_injective(m: nat, n: nat)
    requires
        decimal(m) == decimal(n),
    ensures
        m == n,
    decreases m,
{
    lemma_decimal_is_digits(m / 10);
    lemma_decimal_is_digits(n / 10);
    assert(digit(m % 10) == decimal(m).last());
    assert(digit(n % 10) == decimal(n).last());
    if m >= 10 && n >= 10 {
        assert(decimal(m / 10) =~= decimal(m).drop_last());
        assert(decimal(n / 10) =~= decimal(n).drop_last());
        lemma_decimal_is_injective(m / 10, n / 10);
    }
}

/// Keys are unique: blocks of different objects, and different blocks of one
/// object, have different keys.
pub proof fn block_keys_are_unique(path1: Seq<char>, index1: nat, path2: Seq<char>, index2: nat)
    requires
        block_key(path1, index1) == block_key(path2, index2),
    ensures
        path1 == path2,
        index1 == index2,
{
    let d1 = decimal(index1);
    let d2 = decimal(index2);
    let key = block_key(path1, index1);
    lemma_decimal_is_digits(index1);
    lemma_decimal_is_digits(index2);
    assert(key.len() == path1.len() + 1 + d1.len());
    assert(key.len() == path2.len() + 1 + d2.len());
    assert(key[path1.len() as int] == '_');
    assert(key[path2.len() as int] == '_');
    if path1.len() < path2.len() {
        assert(key[path2.len() as int] == d1[path2.len() - path1.len() - 1]);
    }
    if path2.len() < path1.len() {
        assert(key[path1.len() as int] == d2[path1.len() - path2.len() - 1]);
    }
    assert(path1 =~= key.take(path1.len() as int));
    assert(path2 =~= key.take(path2.len() as int));
    assert(d1 =~= key.skip(path1.len() as int + 1));
    assert(d2 =~= key.skip(path2.len() as int + 1));
    lemma_decimal_is_injective(index1, index2);
}

/// The value of a text read as a base-ten numeral, from its first character on.
pub open spec fn numeral_value(text: Seq<char>) -> int
    decreases text.len(),
{
    if text.len() == 0 {
        0
    } else {
        10 * numeral_value(text.drop_last()) + (text.last() as int - '0' as int)
    }
}

/// A decimal reads as its number, and starts with a zero only where that is all
/// of it.
proof fn lemma_decimal_value(n: nat)
    ensures
        numeral_value(decimal(n)) == n,
        decimal(n)[0] == '0' ==> n == 0,
        n < 10 ==> decimal(n).len() == 1,
    decreases n,
{
    lemma_decimal_is_digits(n);
    if n < 10 {
        assert(decimal(n).drop_last() =~= Seq::empty());
        assert(numeral_value(decimal(n).drop_last()) == 0);
    } else {
        lemma_decimal_value(n / 10);
        lemma_decimal_is_digits(n / 10);
        assert(decimal(n).drop_last() =~= decimal(n / 10));
        assert(decimal(n)[0] == decimal(n / 10)[0]);
    }
}

/// A key can be read back: it starts with the path, an underscore follows, and
/// what comes after that are decimal digits that read, in base ten, as the index
/// of the block. They start with a zero only for the index zero, which is one
/// digit.
pub proof fn block_key_names_path_and_index(path: Seq<char>, block_index: nat)
    ensures
        ({
            let key = block_key(path, block_index);
            let digits = key.skip(path.len() as int + 1);
            &&& key.len() > path.len() + 1
            &&& key.take(path.len() as int) == path
            &&& key[path.len() as int] == '_'
            &&& forall|i: int| 0 <= i < digits.len() ==> '0' <= #[trigger] digits[i] <= '9'
            &&& numeral_value(digits) == block_index
            &&& digits[0] == '0' ==> block_index == 0 && digits.len() == 1
        }),
{
    let key = block_key(path, block_index);
    lemma_decimal_is_digits(block_index);
    lemma_decimal_value(block_index);
    assert(key.take(path.len() as int) =~= path);
    assert(key.skip(path.len() as int + 1) =~= decimal(block_index));
}

/// The text of a number below ten.
fn digit_text(d: usize) -> (text: &'static str)
    requires
        d < 10,
    ensures
        text@ == seq![digit(d as nat)],
{
    proof {
        reveal_strlit("0");
        reveal_strlit("1");
        reveal_strlit("2");
        reveal_strlit("3");
        reveal_strlit("4");
        reveal_strlit("5");
        reveal_strlit("6");
        reveal_strlit("7");
        reveal_strlit("8");
        reveal_strlit("9");
    }
    match d {
        0 => "0",
        1 => "1",
        2 => "2",
        3 => "3",
        4 => "4",
        5 => "5",
        6 => "6",
        7 => "7",
        8 => "8",
        _ => "9",
    }
}

/// Appends `n` in decimal to `text`.
pub(crate) fn append_decimal(text: &mut String, n: usize)
    ensures
        final(text)@ == old(text)@ + decimal(n as nat),
    decreases n,
{
    if n >= 10 {
        append_decimal(text, n / 10);
    }
    text.append(digit_text(n % 10));
    assert(text@ =~= old(text)@ + decimal(n as nat));
}

} // verus!
