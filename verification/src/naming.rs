//! The name of the file that a fragment is stored in.

use vstd::prelude::*;
use vstd::string::*;

verus! {

/// The ten decimal digits, in ascending order.
pub open spec fn digits() -> Seq<char> {
    "0123456789"@
}

/// A number in decimal, without leading zeros.
pub open spec fn decimal(number: nat) -> Seq<char>
    decreases number,
{
    if number < 10 {
        seq![digits()[number as int]]
    } else {
        decimal(number / 10).push(digits()[(number % 10) as int])
    }
}

/// The sequence number of a fragment as it stands in a file name: in decimal,
/// with a zero in front of a single digit.
pub open spec fn index_label(index: nat) -> Seq<char> {
    if index < 10 {
        seq!['0'] + decimal(index)
    } else {
        decimal(index)
    }
}

/// The path of the file for fragment number `index` with the given command
/// name: the directory, a slash, the sequence number, an underscore and the
/// command name.
pub open spec fn path_of(directory: Seq<char>, index: nat, command: Seq<char>) -> Seq<char> {
    directory + seq!['/'] + index_label(index) + seq!['_'] + command
}

/// One decimal digit as text.
fn digit_text(digit: usize) -> (text: &'static str)
    requires
        digit < 10,
    ensures
        text@ == seq![digits()[digit as int]],
{
    proof {
        reveal_strlit("0123456789");
    }
    "0123456789".substring_ascii(digit, digit + 1)
}

/// A number in decimal, without leading zeros.
pub fn decimal_text(number: usize) -> (text: String)
    ensures
        text@ == decimal(number as nat),
    decreases number,
{
    if number < 10 {
        digit_text(number).to_owned()
    } else {
        let mut text = decimal_text(number / 10);
        text.append(digit_text(number % 10));
        text
    }
}

/// The sequence number of a fragment as it stands in a file name.
pub fn index_text(index: usize) -> (text: String)
    ensures
        text@ == index_label(index as nat),
{
    if index < 10 {
        proof {
            reveal_strlit("0");
        }
        "0".to_owned().concat(digit_text(index))
    } else {
        decimal_text(index)
    }
}

/// The path of the file that fragment number `index` is stored in.
pub fn output_path(directory: &str, index: usize, command: &str) -> (path: String)
    ensures
        path@ == path_of(directory@, index as nat, command@),
{
    proof {
        reveal_strlit("/");
        reveal_strlit("_");
    }
    let label = index_text(index);
    let mut path = directory.to_owned();
    path.append("/");
    path.append(label.as_str());
    path.append("_");
    path.append(command);
    path
}

/// Whether a character is one of the ten decimal digits.
pub open spec fn is_digit(c: char) -> bool {
    '0' <= c <= '9'
}

/// A number in decimal is made of digits, at least one of them, and begins
/// with a zero only where the number is zero.
pub proof fn lemma_decimal_shape(number: nat)
    ensures
        decimal(number).len() >= 1,
        number >= 10 ==> decimal(number).len() >= 2,
        forall|i: int| 0 <= i < decimal(number).len() ==> is_digit(#[trigger] decimal(number)[i]),
        number > 0 ==> decimal(number)[0] != '0',
    decreases number,
{
    reveal_strlit("0123456789");
    if number >= 10 {
        lemma_decimal_shape(number / 10);
    }
}

/// Two numbers with the same digits are the same number.
pub proof fn lemma_decimal_is_one_to_one(first: nat, second: nat)
    requires
        decimal(first) == decimal(second),
    ensures
        first == second,
    decreases first,
{
    reveal_strlit("0123456789");
    lemma_decimal_shape(first);
    lemma_decimal_shape(second);
    if first >= 10 && second >= 10 {
        let front = decimal(first / 10);
        let other = decimal(second / 10);
        assert(decimal(first).drop_last() =~= front);
        assert(decimal(second).drop_last() =~= other);
        assert(decimal(first).last() == digits()[(first % 10) as int]);
        assert(decimal(second).last() == digits()[(second % 10) as int]);
        lemma_decimal_is_one_to_one(first / 10, second / 10);
    } else if first < 10 && second < 10 {
        assert(decimal(first)[0] == digits()[first as int]);
        assert(decimal(second)[0] == digits()[second as int]);
    }
}

/// The sequence number in a file name is made of digits, at least two of
/// them, and two fragments never share it.
pub proof fn lemma_index_label_is_one_to_one(first: nat, second: nat)
    ensures
        index_label(first).len() >= 2,
        forall|i: int| 0 <= i < index_label(first).len() ==> is_digit(
            #[trigger] index_label(first)[i],
        ),
        index_label(first) == index_label(second) ==> first == second,
{
    lemma_decimal_shape(first);
    lemma_decimal_shape(second);
    if index_label(first) == index_label(second) {
        if first < 10 && second < 10 {
            assert(index_label(first).drop_first() =~= decimal(first));
            assert(index_label(second).drop_first() =~= decimal(second));
            lemma_decimal_is_one_to_one(first, second);
        } else if first >= 10 && second >= 10 {
            lemma_decimal_is_one_to_one(first, second);
        } else if first < 10 {
            assert(index_label(first)[0] == '0');
        } else {
            assert(index_label(second)[0] == '0');
        }
    }
}

/// Every fragment has a file of its own: the paths of two fragments with
/// different sequence numbers differ, whatever their command names are.
pub proof fn lemma_paths_differ(
    directory: Seq<char>,
    first: nat,
    first_command: Seq<char>,
    second: nat,
    second_command: Seq<char>,
)
    requires
        first != second,
    ensures
        path_of(directory, first, first_command) != path_of(directory, second, second_command),
{
    let one = path_of(directory, first, first_command);
    let other = path_of(directory, second, second_command);
    let label = index_label(first);
    let other_label = index_label(second);
    let from = directory.len() as int + 1;
    lemma_index_label_is_one_to_one(first, second);
    lemma_index_label_is_one_to_one(second, first);
    if one == other {
        assert forall|i: int| 0 <= i < label.len() implies one[from + i] == label[i] by {}
        assert forall|i: int| 0 <= i < other_label.len() implies other[from + i]
            == other_label[i] by {}
        assert(one[from + label.len()] == '_');
        assert(other[from + other_label.len()] == '_');
        if label.len() < other_label.len() {
            assert(is_digit(other_label[label.len() as int]));
        } else if other_label.len() < label.len() {
            assert(is_digit(label[other_label.len() as int]));
        } else {
            assert(label =~= other_label);
        }
    }
}

} // verus!
