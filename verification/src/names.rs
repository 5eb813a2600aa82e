//! The name of the temporary file that an update is written to.

use vstd::prelude::*;

verus! {

/// The character of the decimal digit `d`.
pub open spec fn digit(d: nat) -> char {
    (48 + d) as char
}

/// The number `n` in decimal digits, without leading zeros.
pub open spec fn decimal(n: nat) -> Seq<char>
    decreases n,
{
    if n < 10 {
        seq![digit(n)]
    } else {
        decimal(n / 10).push(digit(n % 10))
    }
}

/// The name `name` with the suffix `.tmp.` and the process id behind it.
pub open spec fn temp_name(name: Seq<char>, pid: nat) -> Seq<char> {
    name + ".tmp."@ + decimal(pid)
}

/// The decimal digit `d` as a string.
fn digit_str(d: u32) -> (r: &'static str)
    requires
        d < 10,
    ensures
        r@ == seq![digit(d as nat)],
{
    proof {
        reveal_strlit("0");
        reveal_strlit("1");
        reveal_strlit("2");
        reveal_strlit("3");
        reveal_strlit("4");
        reveal_strlit("5");
        reveal_strlit("6");
        reveal_strlit("7");
        reveal_strlit("8");
        reveal_strlit("9");
    }
    let r: &'static str = match d {
        0 => "0",
        1 => "1",
        2 => "2",
        3 => "3",
        4 => "4",
        5 => "5",
        6 => "6",
        7 => "7",
        8 => "8",
        _ => "9",
    };
    assert(r@ =~= seq![digit(d as nat)]);
    r
}

/// Appends the number `n` in decimal digits to `text`.
fn append_decimal(text: &mut String, n: u32)
    ensures
        final(text)@ == old(text)@ + decimal(n as nat),
    decreases n,
{
    if n >= 10 {
        append_decimal(text, n / 10);
    }
    text.append(digit_str(n % 10));
    assert(text@ =~= old(text)@ + decimal(n as nat));
}

/// The name of the temporary file beside the file `name`, for the process `pid`.
pub fn temp_file_name(name: &str, pid: u32) -> (r: String)
    ensures
        r@ == temp_name(name@, pid as nat),
{
    let mut text: String = name.to_owned();
    text.append(".tmp.");
    append_decimal(&mut text, pid);
    text
}

/// A number in decimal is made of digits, and has at least one.
proof fn lemma_decimal_is_digits(n: nat)
    ensures
        decimal(n).len() > 0,
        forall|i: int| 0 <= i < decimal(n).len() ==> '0' <= #[trigger] decimal(n)[i] <= '9',
        n > 0 ==> decimal(n)[0] != '0',
        n < 10 ==> decimal(n).len() == 1,
    decreases n,
{
    if n >= 10 {
        lemma_decimal_is_digits(n / 10);
    }
}

/// A number in decimal reads as the number: its digits, the first one the most
/// significant, add up to it. It has no leading zero.
pub proof fn lemma_decimal_reads_back(n: nat)
    ensures
        decimal(n).len() > 0,
        forall|i: int| 0 <= i < decimal(n).len() ==> '0' <= #[trigger] decimal(n)[i] <= '9',
        decimal(n).len() > 1 ==> decimal(n)[0] != '0',
        decimal(n).fold_left(0, |value: int, c: char| 10 * value + (c as int - 48)) == n,
    decreases n,
{
    lemma_decimal_is_digits(n);
    let read = |value: int, c: char| 10 * value + (c as int - 48);
    if n >= 10 {
        lemma_decimal_reads_back(n / 10);
        assert(decimal(n).drop_last() =~= decimal(n / 10));
        assert(decimal(n).last() as int == 48 + n % 10);
        assert(decimal(n).fold_left(0, read) == 10 * (n / 10) + n % 10);
    } else {
        assert(decimal(n).drop_last() =~= Seq::empty());
        assert(decimal(n).last() as int == 48 + n);
        assert(decimal(n).drop_last().fold_left(0, read) == 0);
    }
}

/// Different numbers are written differently.
pub proof fn lemma_decimal_injective(x: nat, y: nat)
    requires
        decimal(x) == decimal(y),
    ensures
        x == y,
    decreases x,
{
    let s = decimal(x);
    lemma_decimal_is_digits(x / 10);
    lemma_decimal_is_digits(y / 10);
    if x >= 10 && y >= 10 {
        assert(decimal(x / 10) =~= s.drop_last());
        assert(decimal(y / 10) =~= s.drop_last());
        lemma_decimal_injective(x / 10, y / 10);
        assert(s.last() == digit(x % 10));
        assert(s.last() == digit(y % 10));
        assert(digit(x % 10) as nat == 48 + x % 10);
        assert(digit(y % 10) as nat == 48 + y % 10);
    } else if x < 10 && y < 10 {
        assert(s[0] == digit(x));
        assert(s[0] == digit(y));
        assert(digit(x) as nat == 48 + x);
        assert(digit(y) as nat == 48 + y);
    } else if x < 10 {
        assert(decimal(x).len() == 1);
        assert(decimal(y).len() > 1);
    } else {
        assert(decimal(x).len() > 1);
        assert(decimal(y).len() == 1);
    }
}

/// A temporary name has three parts: the name of the file, unchanged and
/// whatever it holds, then `.tmp.`, then the process id in decimal.
pub proof fn lemma_temp_name_parts(name: Seq<char>, pid: nat)
    ensures
        temp_name(name, pid).len() > name.len() + 5,
        temp_name(name, pid).take(name.len() as int) == name,
        temp_name(name, pid).subrange(name.len() as int, (name.len() + 5) as int) == seq![
            '.',
            't',
            'm',
            'p',
            '.',
        ],
        ({
            let digits = temp_name(name, pid).skip((name.len() + 5) as int);
            &&& forall|i: int| 0 <= i < digits.len() ==> '0' <= #[trigger] digits[i] <= '9'
            &&& digits.len() > 1 ==> digits[0] != '0'
            &&& digits.fold_left(0, |value: int, c: char| 10 * value + (c as int - 48)) == pid
        }),
{
    reveal_strlit(".tmp.");
    lemma_decimal_reads_back(pid);
    assert(temp_name(name, pid).skip((name.len() + 5) as int) =~= decimal(pid));
}

/// An update is never written to the file it replaces: the temporary file has
/// another name.
pub proof fn lemma_temp_name_is_another(name: Seq<char>, pid: nat)
    ensures
        temp_name(name, pid) != name,
{
    reveal_strlit(".tmp.");
    assert(temp_name(name, pid).len() > name.len());
}

/// No two updates share a temporary file: different files, or different
/// processes, have different temporary names.
pub proof fn lemma_temp_name_injective(n1: Seq<char>, p1: nat, n2: Seq<char>, p2: nat)
    requires
        temp_name(n1, p1) == temp_name(n2, p2),
    ensures
        n1 == n2,
        p1 == p2,
{
    reveal_strlit(".tmp.");
    let t = temp_name(n1, p1);
    let d1 = decimal(p1);
    let d2 = decimal(p2);
    lemma_decimal_is_digits(p1);
    lemma_decimal_is_digits(p2);
    if d1.len() < d2.len() {
        let k = t.len() - d1.len() - 1;
        assert(t[k] == '.');
        assert(t[k] == d2[k - n2.len() - 5]);
        assert(false);
    }
    if d2.len() < d1.len() {
        let k = t.len() - d2.len() - 1;
        assert(t[k] == '.');
        assert(t[k] == d1[k - n1.len() - 5]);
        assert(false);
    }
    assert(n1 =~= t.take(n1.len() as int));
    assert(n2 =~= t.take(n2.len() as int));
    assert(d1 =~= t.skip((n1.len() + 5) as int));
    assert(d2 =~= t.skip((n2.len() + 5) as int));
    lemma_decimal_injective(p1, p2);
}

} // verus!
