//! The names of log files: the decimal digits of a number, then `.log`.
//!
//! The first log of a directory is `0.log`; every compaction writes the log
//! with the next number. Of several logs in a directory the one with the
//! highest number is the active one.

use vstd::prelude::*;
use vstd::string::StrSliceExecFns;
use vstd::string::StringExecFns;

verus! {

/// The character for a digit.
pub open spec fn digit(d: nat) -> char {
    if d == 0 {
        '0'
    } else if d == 1 {
        '1'
    } else if d == 2 {
        '2'
    } else if d == 3 {
        '3'
    } else if d == 4 {
        '4'
    } else if d == 5 {
        '5'
    } else if d == 6 {
        '6'
    } else if d == 7 {
        '7'
    } else if d == 8 {
        '8'
    } else {
        '9'
    }
}

/// The digit that a character stands for, if it stands for one.
pub open spec fn digit_value(c: char) -> Option<nat> {
    if c == '0' {
        Some(0)
    } else if c == '1' {
        Some(1)
    } else if c == '2' {
        Some(2)
    } else if c == '3' {
        Some(3)
    } else if c == '4' {
        Some(4)
    } else if c == '5' {
        Some(5)
    } else if c == '6' {
        Some(6)
    } else if c == '7' {
        Some(7)
    } else if c == '8' {
        Some(8)
    } else if c == '9' {
        Some(9)
    } else {
        None
    }
}

/// The decimal digits of a number, without leading zeros.
pub open spec fn digits(n: nat) -> Seq<char>
    decreases n,
{
    if n < 10 {
        seq![digit(n)]
    } else {
        digits(n / 10).push(digit(n % 10))
    }
}

/// `.log`
pub open spec fn extension() -> Seq<char> {
    seq!['.', 'l', 'o', 'g']
}

/// The name of the log file with the number `n`.
pub open spec fn log_name(n: nat) -> Seq<char> {
    digits(n) + extension()
}

/// The number that a sequence of digits stands for.
pub open spec fn value(ds: Seq<char>) -> nat
    decreases ds.len(),
{
    if ds.len() == 0 {
        0
    } else {
        value(ds.drop_last()) * 10 + match digit_value(ds.last()) {
            Some(d) => d,
            None => 0,
        }
    }
}

/// The characters are digits, at least one, and the first is no zero
/// unless it is the only one.
pub open spec fn is_numeral(ds: Seq<char>) -> bool {
    &&& ds.len() > 0
    &&& forall|i: int| 0 <= i < ds.len() ==> digit_value(#[trigger] ds[i]) is Some
    &&& ds.len() > 1 ==> ds[0] != '0'
}

/// The number of the log file that the name names, or `None` where the
/// name is not that of a log file whose number this machine can hold.
pub open spec fn number_named(name: Seq<char>) -> Option<usize> {
    let cut = name.len() - 4;
    let stem = name.take(cut);
    if name.len() > 4 && name.skip(cut) == extension() && is_numeral(stem) && value(stem)
        <= usize::MAX {
        Some(value(stem) as usize)
    } else {
        None
    }
}

/// The digits of a number are a numeral that stands for that number.
pub proof fn lemma_digits(n: nat)
    ensures
        is_numeral(digits(n)),
        value(digits(n)) == n,
        n > 0 ==> digits(n)[0] != '0',
    decreases n,
{
    let ds = digits(n);
    if n < 10 {
        assert(ds.drop_last() =~= Seq::<char>::empty());
        assert(value(ds.drop_last()) == 0);
    } else {
        lemma_digits(n / 10);
        let front = digits(n / 10);
        assert(ds.drop_last() =~= front);
        assert(ds[0] == front[0]);
        assert forall|i: int| 0 <= i < ds.len() implies digit_value(#[trigger] ds[i]) is Some by {
            if i < front.len() {
                assert(ds[i] == front[i]);
            }
        }
    }
}

/// The name of the log file with a number names that number.
pub proof fn lemma_name_names_number(n: nat)
    requires
        n <= usize::MAX,
    ensures
        number_named(log_name(n)) == Some(n as usize),
{
    lemma_digits(n);
    let name = log_name(n);
    let cut = name.len() - 4;
    assert(name.take(cut) =~= digits(n));
    assert(name.skip(cut) =~= extension());
}

/// More digits stand for no smaller number.
pub proof fn lemma_value_grows(ds: Seq<char>, i: int)
    requires
        0 <= i <= ds.len(),
    ensures
        value(ds.take(i)) <= value(ds),
    decreases ds.len() - i,
{
    if i < ds.len() {
        lemma_value_grows(ds, i + 1);
        assert(ds.take(i + 1).drop_last() =~= ds.take(i));
    } else {
        assert(ds.take(i) =~= ds);
    }
}

/// The digit as a string of one character.
fn digit_text(d: usize) -> (r: &'static str)
    requires
        d < 10,
    ensures
        r@ == seq![digit(d as nat)],
{
    proof {
        reveal_strlit("0");
        reveal_strlit("1");
        reveal_strlit("2");
        reveal_strlit("3");
        reveal_strlit("4");
        reveal_strlit("5");
        reveal_strlit("6");
        reveal_strlit("7");
        reveal_strlit("8");
        reveal_strlit("9");
    }
    let r = if d == 0 {
        "0"
    } else if d == 1 {
        "1"
    } else if d == 2 {
        "2"
    } else if d == 3 {
        "3"
    } else if d == 4 {
        "4"
    } else if d == 5 {
        "5"
    } else if d == 6 {
        "6"
    } else if d == 7 {
        "7"
    } else if d == 8 {
        "8"
    } else {
        "9"
    };
    assert(r@ =~= seq![digit(d as nat)]);
    r
}

/// Appends the decimal digits of a number.
fn push_digits(name: &mut String, n: usize)
    ensures
        final(name)@ == old(name)@ + digits(n as nat),
    decreases n,
{
    if n >= 10 {
        push_digits(name, n / 10);
    }
    name.append(digit_text(n % 10));
    assert(name@ =~= old(name)@ + digits(n as nat));
}

/// The name of the log file with a number.
pub fn log_file_name(number: usize) -> (name: String)
    ensures
        name@ == log_name(number as nat),
{
    let mut name = String::new();
    push_digits(&mut name, number);
    proof {
        reveal_strlit(".log");
    }
    name.append(".log");
    assert(name@ =~= log_name(number as nat));
    name
}

/// The digit that a character stands for.
fn digit_of(c: char) -> (r: Option<usize>)
    ensures
        match r {
            Some(d) => digit_value(c) == Some(d as nat) && d < 10,
            None => digit_value(c) is None,
        },
{
    if c == '0' {
        Some(0)
    } else if c == '1' {
        Some(1)
    } else if c == '2' {
        Some(2)
    } else if c == '3' {
        Some(3)
    } else if c == '4' {
        Some(4)
    } else if c == '5' {
        Some(5)
    } else if c == '6' {
        Some(6)
    } else if c == '7' {
        Some(7)
    } else if c == '8' {
        Some(8)
    } else if c == '9' {
        Some(9)
    } else {
        None
    }
}

/// The number of the log file that a name names.
pub fn log_file_number(name: &str) -> (r: Option<usize>)
    ensures
        r == number_named(name@),
{
    let len = name.unicode_len();
    if len <= 4 {
        return None;
    }
    let cut = len - 4;
    let ghost stem = name@.take(cut as int);
    if name.get_char(cut) != '.' || name.get_char(cut + 1) != 'l' || name.get_char(cut + 2) != 'o'
        || name.get_char(cut + 3) != 'g' {
        proof {
            let tail = name@.skip(cut as int);
            assert(tail[0] == name@[cut as int] && tail[1] == name@[cut + 1] && tail[2]
                == name@[cut + 2] && tail[3] == name@[cut + 3]);
        }
        return None;
    }
    assert(name@.skip(cut as int) =~= extension());
    if cut > 1 && name.get_char(0) == '0' {
        return None;
    }
    let mut acc: usize = 0;
    let mut i: usize = 0;
    while i < cut
        invariant
            i <= cut,
            cut == name@.len() - 4,
            stem == name@.take(cut as int),
            forall|j: int| 0 <= j < i ==> digit_value(#[trigger] stem[j]) is Some,
            acc == value(stem.take(i as int)),
        decreases cut - i,
    {
        let c = name.get_char(i);
        let d = match digit_of(c) {
            Some(d) => d,
            None => {
                assert(digit_value(stem[i as int]) is None);
                return None;
            },
        };
        proof {
            assert(stem.take(i + 1).drop_last() =~= stem.take(i as int));
            assert(stem.take(i + 1).last() == c);
        }
        if acc > (usize::MAX - d) / 10 {
            proof {
                lemma_value_grows(stem, i + 1);
            }
            return None;
        }
        acc = acc * 10 + d;
        i = i + 1;
    }
    proof {
        assert(stem.take(cut as int) =~= stem);
    }
    Some(acc)
}

/// Among the names of a directory, the position and the number of the log
/// file with the highest number: the active log. `None` where no name is
/// that of a log file.
pub fn pick_active_log(names: &Vec<String>) -> (r: Option<(usize, usize)>)
    ensures
        match r {
            Some((at, number)) => {
                &&& at < names@.len()
                &&& number_named(names@[at as int]@) == Some(number)
                &&& forall|j: int|
                    0 <= j < names@.len() ==> match number_named(#[trigger] names@[j]@) {
                        Some(other) => other <= number,
                        None => true,
                    }
                &&& forall|j: int|
                    0 <= j < at ==> number_named(#[trigger] names@[j]@) != Some(number)
            },
            None => forall|j: int|
                0 <= j < names@.len() ==> number_named(#[trigger] names@[j]@) is None,
        },
{
    let mut best: Option<(usize, usize)> = None;
    let mut i: usize = 0;
    while i < names.len()
        invariant
            i <= names@.len(),
            match best {
                Some((at, number)) => {
                    &&& at < i
                    &&& number_named(names@[at as int]@) == Some(number)
                    &&& forall|j: int|
                        0 <= j < i ==> match number_named(#[trigger] names@[j]@) {
                            Some(other) => other <= number,
                            None => true,
                        }
                    &&& forall|j: int|
                        0 <= j < at ==> number_named(#[trigger] names@[j]@) != Some(number)
                },
                None => forall|j: int|
                    0 <= j < i ==> number_named(#[trigger] names@[j]@) is None,
            },
        decreases names@.len() - i,
    {
        match log_file_number(names[i].as_str()) {
            Some(number) => {
                let better = match best {
                    Some((_, held)) => number > held,
                    None => true,
                };
                if better {
                    best = Some((i, number));
                }
            },
            None => {},
        }
        i = i + 1;
    }
    best
}

} // verus!
