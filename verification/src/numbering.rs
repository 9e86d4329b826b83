//! The numbers of rotated files under size-based rotation.
use crate::text::{
    begins_with, decimal, dot_from, fields, is_digit, law_decimal_reads_back, lemma_decimal,
    lemma_dot_from, lemma_dot_from_is, parse_usize, parsed, pieces, slice_of, split_dots, starts_with, texts,
    to_chars,
};
use vstd::prelude::*;

verus! {

/// The name of the rotated file with the number `i`.
pub open spec fn rotated_name(filename: Seq<char>, i: nat) -> Seq<char> {
    filename + seq!['.'] + decimal(i)
}

/// The name of the rotated file with the number `i` after it was compressed.
pub open spec fn packed_name(filename: Seq<char>, i: nat, extension: Seq<char>) -> Seq<char> {
    rotated_name(filename, i) + seq!['.'] + extension
}

/// The number that stands in `name` behind the name of the log file and a dot,
/// up to the next dot.
pub open spec fn number_behind(name: Seq<char>, filename: Seq<char>) -> Option<usize> {
    let prefix = filename + seq!['.'];
    if begins_with(name, prefix) {
        parsed(fields(name.skip(prefix.len() as int))[0])
    } else {
        None
    }
}

/// The largest number of a rotated file among the names, or zero.
pub open spec fn largest_number(names: Seq<Seq<char>>, filename: Seq<char>) -> nat
    decreases names.len(),
{
    if names.len() == 0 {
        0
    } else {
        let before = largest_number(names.drop_last(), filename);
        match number_behind(names.last(), filename) {
            Some(number) => if number > before {
                number as nat
            } else {
                before
            },
            None => before,
        }
    }
}

/// The number that stands in `name` behind the name of the log file and a dot, up
/// to the next dot.
pub fn number_in(name: &String, filename: &Vec<char>) -> (r: Option<usize>)
    ensures
        r == number_behind(name@, filename@),
{
    let chars = to_chars(name.as_str());
    let mut prefix = slice_of(filename, 0, filename.len());
    prefix.push('.');
    assert(prefix@ =~= filename@ + seq!['.']);
    if starts_with(&chars, &prefix) {
        let rest = slice_of(&chars, prefix.len(), chars.len());
        assert(rest@ =~= chars@.skip(prefix@.len() as int));
        let parts = split_dots(&rest);
        assert(pieces(parts@)[0] == parts@[0]@);
        parse_usize(&parts[0])
    } else {
        None
    }
}

/// The largest number of a rotated file among the names, or zero.
pub fn largest_number_of(names: &Vec<String>, filename: &str) -> (r: usize)
    ensures
        r == largest_number(texts(names@), filename@),
{
    let filename_chars = to_chars(filename);
    let ghost all = texts(names@);
    let mut max_suffix: usize = 0;
    let mut i: usize = 0;
    assert(all.take(0) =~= Seq::<Seq<char>>::empty());
    while i < names.len()
        invariant
            i <= names.len(),
            all == texts(names@),
            filename_chars@ == filename@,
            max_suffix == largest_number(all.take(i as int), filename@),
        decreases names.len() - i,
    {
        proof {
            assert(all.take(i as int + 1).drop_last() =~= all.take(i as int));
            assert(all.take(i as int + 1).last() == names@[i as int]@);
        }
        if let Some(suffix) = number_in(&names[i], &filename_chars) {
            if suffix > max_suffix {
                max_suffix = suffix;
            }
        }
        i = i + 1;
    }
    assert(all.take(all.len() as int) =~= all);
    max_suffix
}

/// Digits are no dots.
proof fn lemma_decimal_has_no_dot(n: nat)
    ensures
        forall|i: int| 0 <= i < decimal(n).len() ==> decimal(n)[i] != '.',
{
    lemma_decimal(n);
    assert forall|i: int| 0 <= i < decimal(n).len() implies decimal(n)[i] != '.' by {
        assert(is_digit(decimal(n)[i]));
    }
}

/// A rotated file is counted under the number in its name, compressed or not.
pub proof fn law_rotated_file_is_counted(filename: Seq<char>, i: usize, tail: Seq<char>)
    requires
        tail.len() == 0 || tail[0] == '.',
    ensures
        number_behind(rotated_name(filename, i as nat) + tail, filename) == Some(i),
{
    let digits = decimal(i as nat);
    let prefix = filename + seq!['.'];
    let name = rotated_name(filename, i as nat) + tail;
    lemma_decimal_has_no_dot(i as nat);
    assert(name.take(prefix.len() as int) =~= prefix);
    let rest = name.skip(prefix.len() as int);
    assert(rest =~= digits + tail);
    lemma_dot_from_is(rest, 0, digits.len() as int);
    assert(rest.subrange(0, digits.len() as int) =~= digits);
    assert(fields(rest)[0] =~= digits);
    law_decimal_reads_back(i);
}

/// The names of the file with the number `i`, letter by letter: the name of the log
/// file, a dot and the number; and a dot and the extension behind it.
pub proof fn law_rotated_names(filename: Seq<char>, i: nat, extension: Seq<char>)
    ensures
        rotated_name(filename, i) == filename + seq!['.'] + decimal(i),
        packed_name(filename, i, extension) == filename + seq!['.'] + decimal(i) + seq!['.']
            + extension,
{
}

/// A name has a number if and only if it is the name of the log file, a dot, a text
/// without dots that spells the number, and then nothing or a dot and anything.
pub proof fn law_number_behind(name: Seq<char>, filename: Seq<char>, n: usize)
    ensures
        number_behind(name, filename) == Some(n) <==> exists|text: Seq<char>, tail: Seq<char>|
            {
                &&& name == #[trigger] (filename + seq!['.'] + text + tail)
                &&& forall|i: int| 0 <= i < text.len() ==> text[i] != '.'
                &&& tail.len() == 0 || tail[0] == '.'
                &&& parsed(text) == Some(n)
            },
{
    let prefix = filename + seq!['.'];
    let rest = name.skip(prefix.len() as int);
    if number_behind(name, filename) == Some(n) {
        lemma_dot_from(rest, 0);
        let at = dot_from(rest, 0);
        let text = rest.subrange(0, at);
        let tail = rest.skip(at);
        assert(fields(rest)[0] =~= text);
        assert(name =~= filename + seq!['.'] + text + tail) by {
            assert(name =~= name.take(prefix.len() as int) + rest);
            assert(rest =~= text + tail);
        }
    }
    if exists|text: Seq<char>, tail: Seq<char>|
        {
            &&& name == #[trigger] (filename + seq!['.'] + text + tail)
            &&& forall|i: int| 0 <= i < text.len() ==> text[i] != '.'
            &&& tail.len() == 0 || tail[0] == '.'
            &&& parsed(text) == Some(n)
        } {
        let (text, tail) = choose|text: Seq<char>, tail: Seq<char>|
            {
                &&& name == #[trigger] (filename + seq!['.'] + text + tail)
                &&& forall|i: int| 0 <= i < text.len() ==> text[i] != '.'
                &&& tail.len() == 0 || tail[0] == '.'
                &&& parsed(text) == Some(n)
            };
        assert(name.take(prefix.len() as int) =~= prefix);
        assert(rest =~= text + tail);
        lemma_dot_from_is(rest, 0, text.len() as int);
        assert(rest.subrange(0, text.len() as int) =~= text);
        assert(fields(rest)[0] =~= text);
    }
}

/// The largest number is the number of one of the names, or zero, and no name has a
/// larger one.
pub proof fn law_largest_number_is_found(names: Seq<Seq<char>>, filename: Seq<char>)
    ensures
        largest_number(names, filename) == 0 || exists|k: int|
            0 <= k < names.len() && number_behind(#[trigger] names[k], filename) == Some(
                largest_number(names, filename) as usize,
            ),
        forall|k: int|
            0 <= k < names.len() ==> (number_behind(#[trigger] names[k], filename) matches Some(n)
                ==> n <= largest_number(names, filename)),
    decreases names.len(),
{
    if names.len() > 0 {
        let before = names.drop_last();
        law_largest_number_is_found(before, filename);
        if largest_number(before, filename) == largest_number(names, filename) && largest_number(
            names,
            filename,
        ) != 0 {
            let k = choose|k: int|
                0 <= k < before.len() && number_behind(#[trigger] before[k], filename) == Some(
                    largest_number(before, filename) as usize,
                );
            assert(names[k] == before[k]);
        } else {
            assert(names[names.len() - 1] == names.last());
        }
        assert forall|k: int| 0 <= k < names.len() implies (number_behind(
            #[trigger] names[k],
            filename,
        ) matches Some(n) ==> n <= largest_number(names, filename)) by {
            if k < before.len() {
                assert(before[k] == names[k]);
            }
        }
    }
}

/// No name has a number beyond the largest.
proof fn lemma_largest(names: Seq<Seq<char>>, filename: Seq<char>, k: int)
    requires
        0 <= k < names.len(),
    ensures
        number_behind(names[k], filename) matches Some(number) ==> number <= largest_number(
            names,
            filename,
        ),
    decreases names.len(),
{
    if k < names.len() - 1 {
        lemma_largest(names.drop_last(), filename, k);
    }
}

/// Every rotated file among the names, compressed or not, has a number of at most
/// the largest; without a rotated file the largest is zero.
pub proof fn law_largest_number(names: Seq<Seq<char>>, filename: Seq<char>)
    ensures
        forall|i: usize, tail: Seq<char>|
            #![trigger rotated_name(filename, i as nat) + tail]
            (tail.len() == 0 || tail[0] == '.') && names.contains(
                rotated_name(filename, i as nat) + tail,
            ) ==> i <= largest_number(names, filename),
        (forall|k: int| 0 <= k < names.len() ==> number_behind(#[trigger] names[k], filename) is None)
            ==> largest_number(names, filename) == 0,
{
    assert forall|i: usize, tail: Seq<char>|
        #![trigger rotated_name(filename, i as nat) + tail]
        (tail.len() == 0 || tail[0] == '.') && names.contains(
            rotated_name(filename, i as nat) + tail,
        ) implies i <= largest_number(names, filename) by {
        law_rotated_file_is_counted(filename, i, tail);
        let k = choose|k: int|
            0 <= k < names.len() && names[k] == rotated_name(filename, i as nat) + tail;
        lemma_largest(names, filename, k);
    }
    if forall|k: int| 0 <= k < names.len() ==> number_behind(#[trigger] names[k], filename) is None {
        lemma_none_numbered(names, filename);
    }
}

/// Without numbered names the largest number is zero.
proof fn lemma_none_numbered(names: Seq<Seq<char>>, filename: Seq<char>)
    requires
        forall|k: int| 0 <= k < names.len() ==> number_behind(#[trigger] names[k], filename) is None,
    ensures
        largest_number(names, filename) == 0,
    decreases names.len(),
{
    if names.len() > 0 {
        assert(number_behind(names[names.len() - 1], filename) is None);
        assert forall|k: int| 0 <= k < names.len() - 1 implies number_behind(
            #[trigger] names.drop_last()[k],
            filename,
        ) is None by {
            assert(names.drop_last()[k] == names[k]);
        }
        lemma_none_numbered(names.drop_last(), filename);
    }
}

} // verus!
