//! The regular expressions by which the files of a log are told from others.
use crate::calendar::{
    day_number, has_four_digit_year, is_date, is_stamp, no_percent, stamp, two_digits, TimeView,
};
use crate::expression::{
    atom_fits, atom_text, atoms_fit, atoms_text, atoms_weight, expression_text, is_small,
    lemma_atoms_cut, lemma_last_atom, lemma_pieces_fall_apart, lemma_pieces_join, piece_fits,
    piece_text, pieces_fit, pieces_text, pieces_weight, Atom, Piece,
};
use crate::meta::{is_dated_name, suffix_part, MetaView};
use crate::numbering::{packed_name, rotated_name};
use crate::rotation::{Compression, Rotation, RotationAge, RotationSize};
use crate::text::{all_digits, decimal, is_digit, lemma_decimal, text_of};
use vstd::prelude::*;

verus! {

/// `c` does not stand for itself in a regular expression, or not everywhere.
pub open spec fn is_meta(c: char) -> bool {
    c == '\\' || c == '.' || c == '+' || c == '*' || c == '?' || c == '(' || c == ')' || c == '|'
        || c == '[' || c == ']' || c == '{' || c == '}' || c == '^' || c == '$' || c == '#' || c
        == '&' || c == '-' || c == '~'
}

/// The regular expression for the text itself: with a backslash before each
/// character that would mean something else.
pub open spec fn escaped(s: Seq<char>) -> Seq<char>
    decreases s.len(),
{
    if s.len() == 0 {
        Seq::empty()
    } else {
        escaped(s.drop_last()) + (if is_meta(s.last()) {
            seq!['\\', s.last()]
        } else {
            seq![s.last()]
        })
    }
}

/// What stands in a pattern for a piece that a name may have: a group of a dot and
/// the piece, taken once or not at all.
pub open spec fn optional_group(piece: Option<Seq<char>>) -> Seq<char> {
    match piece {
        Some(text) => "(\\."@ + escaped(text) + ")?"@,
        None => Seq::<char>::empty(),
    }
}

/// The extension of compressed files, where files are compressed.
pub open spec fn extension_of(compression: Option<Compression>) -> Option<Seq<char>> {
    match compression {
        Some(c) => Some(c.extension()),
        None => None,
    }
}

/// The regular expression for the digits of a stamp.
pub open spec fn digits_pattern(age: RotationAge) -> Seq<char> {
    match age {
        RotationAge::Minutely => "[0-9]{4}-[0-9]{2}-[0-9]{2}-[0-9]{2}-[0-9]{2}"@,
        RotationAge::Hourly => "[0-9]{4}-[0-9]{2}-[0-9]{2}-[0-9]{2}"@,
        RotationAge::Daily => "[0-9]{4}-[0-9]{2}-[0-9]{2}"@,
    }
}

/// The regular expression for what follows the name of the log file.
pub open spec fn middle_pattern(rotation: Rotation) -> Seq<char> {
    match rotation {
        Rotation::SizeBased(_) => "(\\.[0-9]+)?"@,
        Rotation::AgeBased(age) => "\\."@ + digits_pattern(age),
    }
}

/// The regular expression for the files of a log. Each character of the name of the
/// log file and of the suffix stands for itself.
pub open spec fn file_pattern(
    filename: Seq<char>,
    rotation: Rotation,
    suffix: Option<Seq<char>>,
    compression: Option<Compression>,
) -> Seq<char> {
    "^"@ + escaped(filename) + middle_pattern(rotation) + optional_group(suffix) + optional_group(
        extension_of(compression),
    ) + "$"@
}

/// `s` is as long as a stamp and has digits and dashes where a stamp has them.
pub open spec fn has_stamp_form(s: Seq<char>, age: RotationAge) -> bool {
    &&& s.len() == match age {
        RotationAge::Minutely => 16int,
        RotationAge::Hourly => 13int,
        RotationAge::Daily => 10int,
    }
    &&& forall|i: int|
        0 <= i < s.len() ==> if i == 4 || i == 7 || i == 10 || i == 13 {
            #[trigger] s[i] == '-'
        } else {
            is_digit(s[i])
        }
}

/// `s` can stand behind the name of the log file: a dot and digits, or nothing,
/// under size-based rotation; a dot and a stamp under age-based rotation.
pub open spec fn is_middle(s: Seq<char>, rotation: Rotation) -> bool {
    match rotation {
        Rotation::SizeBased(_) => s.len() == 0 || (s.len() > 1 && s[0] == '.'
            && all_digits(s.skip(1))),
        Rotation::AgeBased(age) => s.len() > 0 && s[0] == '.' && has_stamp_form(s.skip(1), age),
    }
}

/// `s` is nothing, or a dot and the piece.
pub open spec fn is_optional(s: Seq<char>, piece: Option<Seq<char>>) -> bool {
    s.len() == 0 || (piece matches Some(text) && s == seq!['.'] + text)
}

/// `text` is built as the names of the log's files are: the name of the log
/// file, the number or the stamp, and, each if need be, the suffix and the
/// extension of compressed files.
pub open spec fn is_file_name(
    text: Seq<char>,
    filename: Seq<char>,
    rotation: Rotation,
    suffix: Option<Seq<char>>,
    compression: Option<Compression>,
) -> bool {
    exists|middle: Seq<char>, s: Seq<char>, e: Seq<char>|
        #![trigger is_middle(middle, rotation), is_optional(s, suffix), is_optional(e, extension_of(compression))]
        {
            &&& is_middle(middle, rotation)
            &&& is_optional(s, suffix)
            &&& is_optional(e, extension_of(compression))
            &&& text == filename + middle + s + e
        }
}

/// The most characters that a name can have of which a pattern is surely accepted.
/// The names of files are far shorter.
pub const NAME_LIMIT: usize = 32768;

/// The name of the log file and the suffix are within the limit.
pub open spec fn short_names(filename: Seq<char>, suffix: Option<Seq<char>>) -> bool {
    filename.len() <= NAME_LIMIT && (suffix matches Some(s) ==> s.len() <= NAME_LIMIT)
}

/// The message of the error with which `regex::Regex::new` refuses the pattern,
/// or `None` where it accepts it.
pub uninterp spec fn regex_error(pattern: Seq<char>) -> Option<Seq<char>>;

/// `regex::Regex::is_match` finds the pattern in the text. `false` where
/// `Regex::new` refuses the pattern.
pub uninterp spec fn regex_is_match(pattern: Seq<char>, text: Seq<char>) -> bool;

/// The atoms of what follows the name of the log file.
pub open spec fn middle_atoms(rotation: Rotation) -> Seq<Atom> {
    let dot = Atom::Literal(seq!['.']);
    match rotation {
        Rotation::SizeBased(_) => seq![dot, Atom::Number],
        Rotation::AgeBased(RotationAge::Daily) => seq![
            dot,
            Atom::Digits(4),
            Atom::Dash,
            Atom::Digits(2),
            Atom::Dash,
            Atom::Digits(2),
        ],
        Rotation::AgeBased(RotationAge::Hourly) => seq![
            dot,
            Atom::Digits(4),
            Atom::Dash,
            Atom::Digits(2),
            Atom::Dash,
            Atom::Digits(2),
            Atom::Dash,
            Atom::Digits(2),
        ],
        Rotation::AgeBased(RotationAge::Minutely) => seq![
            dot,
            Atom::Digits(4),
            Atom::Dash,
            Atom::Digits(2),
            Atom::Dash,
            Atom::Digits(2),
            Atom::Dash,
            Atom::Digits(2),
            Atom::Dash,
            Atom::Digits(2),
        ],
    }
}

/// The piece for what a name may have behind a dot, if it may have anything.
pub open spec fn optional_pieces(part: Option<Seq<char>>) -> Seq<Piece> {
    match part {
        Some(text) => seq![
            Piece { atoms: seq![Atom::Literal(seq!['.']), Atom::Literal(text)], optional: true },
        ],
        None => Seq::empty(),
    }
}

/// The pieces of the expression for the files of a log.
pub open spec fn file_pieces(
    filename: Seq<char>,
    rotation: Rotation,
    suffix: Option<Seq<char>>,
    compression: Option<Compression>,
) -> Seq<Piece> {
    seq![
        Piece { atoms: seq![Atom::Literal(filename)], optional: false },
        Piece { atoms: middle_atoms(rotation), optional: rotation is SizeBased },
    ] + optional_pieces(suffix) + optional_pieces(extension_of(compression))
}

/// Why the pattern is no regular expression, or `None` where it is one.
///
/// Calls `regex::Regex::new`. Trusted is that the message depends on the pattern
/// alone, and that an expression which is written as `expression_text` says, and is
/// small, is accepted: it is a regular expression, and compiled it takes less than
/// the ten megabytes that `Regex::new` allows, since each byte of a literal and each
/// digit takes a state of 32 bytes at most, or a few of them.
#[verifier::external_body]
pub(crate) fn pattern_error(pattern: &str) -> (r: Option<String>)
    ensures
        text_of(r) == regex_error(pattern@),
        forall|pieces: Seq<Piece>|
            is_small(pieces) && pattern@ == #[trigger] expression_text(pieces) ==> r is None,
{
    match regex::Regex::new(pattern) {
        Ok(_) => None,
        Err(error) => Some(error.to_string()),
    }
}

/// Tells whether the regular expression `pattern` is found in the text.
///
/// Calls `regex::Regex::is_match`. Trusted is that the answer depends on the
/// pattern and the text alone, and that an expression which is written as
/// `expression_text` says, and which `Regex::new` accepts, is found in a text if and
/// only if its pieces stand for the whole of the text: `^` and `$` stand for the
/// beginning and the end, `[0-9]` for an ASCII digit, `{n}` for so many and `+` for one
/// or more of them, `(..)?` for what is in the group or nothing, and characters behind
/// a backslash, and others, for themselves.
#[verifier::external_body]
pub(crate) fn pattern_matches(pattern: &str, text: &str) -> (r: bool)
    ensures
        r == regex_is_match(pattern@, text@),
        forall|pieces: Seq<Piece>|
            regex_error(pattern@) is None && pattern@ == #[trigger] expression_text(pieces) ==> r
                == pieces_fit(pieces, text@),
{
    match regex::Regex::new(pattern) {
        Ok(expression) => expression.is_match(text),
        Err(_) => false,
    }
}

/// The text `a` and then the text `b`.
fn joined(a: String, b: &str) -> (r: String)
    ensures
        r@ == a@ + b@,
{
    let mut text = a;
    text.append(b);
    text
}

/// The regular expression for the text itself.
///
/// Calls `regex::escape`. Trusted is that it puts a backslash before each of the
/// characters that mean something in a regular expression, and leaves the others as
/// they are.
#[verifier::external_body]
fn escape_text(text: &str) -> (r: String)
    ensures
        r@ == escaped(text@),
{
    regex::escape(text)
}

/// What stands in a pattern for a piece that a name may have.
fn group_text(piece: Option<&str>) -> (r: String)
    ensures
        r@ == optional_group(
            match piece {
                Some(text) => Some(text@),
                None => None,
            },
        ),
{
    match piece {
        Some(text) => joined(
            joined(String::from_str("(\\."), escape_text(text).as_str()),
            ")?",
        ),
        None => String::new(),
    }
}

/// The regular expression for the files of a log.
///
/// Between the anchors stand the name of the log file, then a dot and the digits of a
/// number or of a stamp, and then, in optional groups, the suffix and the extension.
pub fn build_pattern(
    filename: &str,
    rotation: &Rotation,
    file_suffix: &Option<String>,
    compression: &Option<Compression>,
) -> (r: String)
    ensures
        r@ == file_pattern(
            filename@,
            *rotation,
            text_of(*file_suffix),
            *compression,
        ),
        r@ == "^"@ + escaped(filename@) + (match *rotation {
            Rotation::SizeBased(_) => "(\\.[0-9]+)?"@,
            Rotation::AgeBased(RotationAge::Daily) => "\\."@ + "[0-9]{4}-[0-9]{2}-[0-9]{2}"@,
            Rotation::AgeBased(RotationAge::Hourly) => "\\."@
                + "[0-9]{4}-[0-9]{2}-[0-9]{2}-[0-9]{2}"@,
            Rotation::AgeBased(RotationAge::Minutely) => "\\."@
                + "[0-9]{4}-[0-9]{2}-[0-9]{2}-[0-9]{2}-[0-9]{2}"@,
        }) + (match *file_suffix {
            Some(suffix) => "(\\."@ + escaped(suffix@) + ")?"@,
            None => Seq::<char>::empty(),
        }) + (match *compression {
            Some(Compression::Gzip) => "(\\."@ + escaped("gz"@) + ")?"@,
            Some(Compression::XZ(_)) => "(\\."@ + escaped("xz"@) + ")?"@,
            None => Seq::<char>::empty(),
        }) + "$"@,
{
    let suffix_group = match file_suffix {
        Some(s) => group_text(Some(s.as_str())),
        None => group_text(None),
    };
    let compression_group = match compression {
        Some(c) => group_text(Some(c.get_extension())),
        None => group_text(None),
    };
    let middle = match rotation {
        Rotation::SizeBased(_) => String::from_str("(\\.[0-9]+)?"),
        Rotation::AgeBased(age) => joined(
            String::from_str("\\."),
            match age {
                RotationAge::Minutely => "[0-9]{4}-[0-9]{2}-[0-9]{2}-[0-9]{2}-[0-9]{2}",
                RotationAge::Hourly => "[0-9]{4}-[0-9]{2}-[0-9]{2}-[0-9]{2}",
                RotationAge::Daily => "[0-9]{4}-[0-9]{2}-[0-9]{2}",
            },
        ),
    };
    let start = joined(String::from_str("^"), escape_text(filename).as_str());
    let named = joined(start, middle.as_str());
    let suffixed = joined(named, suffix_group.as_str());
    let packed = joined(suffixed, compression_group.as_str());
    joined(packed, "$")
}

/// The first character alone.
proof fn lemma_one_char(s: Seq<char>, c: char)
    requires
        s.len() >= 1,
    ensures
        s.take(1) == seq![c] <==> s[0] == c,
{
    assert(s.take(1)[0] == s[0]);
    if s[0] == c {
        assert(s.take(1) =~= seq![c]);
    }
}

/// The first digits alone.
proof fn lemma_first_digits(s: Seq<char>, n: nat)
    requires
        s.len() >= n,
    ensures
        atom_fits(Atom::Digits(n), s.take(n as int)) <==> forall|i: int|
            0 <= i < n ==> is_digit(#[trigger] s[i]),
{
    assert(forall|i: int| 0 <= i < n ==> #[trigger] s.take(n as int)[i] == s[i]);
    if all_digits(s.take(n as int)) {
        assert forall|i: int| 0 <= i < n implies is_digit(#[trigger] s[i]) by {
            assert(s.take(n as int)[i] == s[i]);
        }
    }
}

/// The part behind the name of the log file, which has to be there, stands for a dot
/// and a stamp, or for a dot and digits.
proof fn lemma_middle(rotation: Rotation, s: Seq<char>)
    ensures
        atoms_fit(middle_atoms(rotation), s) <==> s.len() > 0 && is_middle(s, rotation),
{
    let dot = Atom::Literal(seq!['.']);
    match rotation {
        Rotation::SizeBased(_) => {
            let rest = seq![Atom::Number];
            assert(middle_atoms(rotation) =~= seq![dot] + rest);
            lemma_atoms_cut(dot, rest, s);
            lemma_last_atom(Atom::Number, s.skip(1));
            if s.len() >= 1 {
                lemma_one_char(s, '.');
            }
        },
        Rotation::AgeBased(age) => {
            lemma_stamp_atoms(age, s.skip(1));
            assert(middle_atoms(rotation) =~= seq![dot] + stamp_atoms(age));
            lemma_atoms_cut(dot, stamp_atoms(age), s);
            if s.len() >= 1 {
                lemma_one_char(s, '.');
            }
        },
    }
}

/// The atoms for the digits and dashes of a stamp.
spec fn stamp_atoms(age: RotationAge) -> Seq<Atom> {
    seq![Atom::Digits(4), Atom::Dash, Atom::Digits(2), Atom::Dash] + match age {
        RotationAge::Daily => seq![Atom::Digits(2)],
        RotationAge::Hourly => seq![Atom::Digits(2), Atom::Dash, Atom::Digits(2)],
        RotationAge::Minutely => seq![
            Atom::Digits(2),
            Atom::Dash,
            Atom::Digits(2),
            Atom::Dash,
            Atom::Digits(2),
        ],
    }
}

/// The texts of pairs of digits with dashes between them: `pairs` of them.
spec fn has_pairs_form(s: Seq<char>, pairs: int) -> bool {
    &&& s.len() == 3 * pairs - 1
    &&& forall|i: int|
        0 <= i < s.len() ==> if i == 2 || i == 5 {
            #[trigger] s[i] == '-'
        } else {
            is_digit(s[i])
        }
}

/// Pairs of digits with dashes between them.
proof fn lemma_pairs(s: Seq<char>)
    ensures
        atoms_fit(seq![Atom::Digits(2)], s) <==> has_pairs_form(s, 1),
        atoms_fit(seq![Atom::Digits(2), Atom::Dash, Atom::Digits(2)], s) <==> has_pairs_form(s, 2),
        atoms_fit(
            seq![Atom::Digits(2), Atom::Dash, Atom::Digits(2), Atom::Dash, Atom::Digits(2)],
            s,
        ) <==> has_pairs_form(s, 3),
{
    let d2 = Atom::Digits(2);
    let dash = Atom::Dash;
    let one = seq![d2];
    let two = seq![d2, dash, d2];
    let three = seq![d2, dash, d2, dash, d2];
    lemma_last_atom(d2, s);
    assert(two =~= seq![d2] + (seq![dash] + one));
    lemma_atoms_cut(d2, seq![dash] + one, s);
    if s.len() >= 2 {
        lemma_atoms_cut(dash, one, s.skip(2));
        lemma_atoms_cut(dash, two, s.skip(2));
        if s.len() >= 3 {
            let t = s.skip(2).skip(1);
            lemma_one_char(s.skip(2), '-');
            lemma_last_atom(d2, t);
            assert(forall|i: int| 0 <= i < t.len() ==> #[trigger] t[i] == s[i + 3]);
            lemma_two_pairs(t);
            assert(has_pairs_form(t, 2) && s[2] == '-' && is_digit(s[0]) && is_digit(s[1])
                ==> has_pairs_form(s, 3)) by {
                assert(forall|i: int| 3 <= i < s.len() ==> #[trigger] s[i] == t[i - 3]);
            }
            assert(has_pairs_form(t, 1) && s[2] == '-' && is_digit(s[0]) && is_digit(s[1])
                ==> has_pairs_form(s, 2)) by {
                assert(forall|i: int| 3 <= i < s.len() ==> #[trigger] s[i] == t[i - 3]);
            }
            assert(has_pairs_form(s, 3) ==> has_pairs_form(t, 2));
            assert(has_pairs_form(s, 2) ==> has_pairs_form(t, 1));
        }
        lemma_first_digits(s, 2);
    }
    assert(three =~= seq![d2] + (seq![dash] + two));
    lemma_atoms_cut(d2, seq![dash] + two, s);
}

/// Two pairs of digits with a dash between them.
proof fn lemma_two_pairs(s: Seq<char>)
    ensures
        atoms_fit(seq![Atom::Digits(2), Atom::Dash, Atom::Digits(2)], s) <==> has_pairs_form(s, 2),
{
    let d2 = Atom::Digits(2);
    let dash = Atom::Dash;
    let one = seq![d2];
    assert(seq![d2, dash, d2] =~= seq![d2] + (seq![dash] + one));
    lemma_atoms_cut(d2, seq![dash] + one, s);
    if s.len() >= 2 {
        lemma_atoms_cut(dash, one, s.skip(2));
        lemma_first_digits(s, 2);
        if s.len() >= 3 {
            let t = s.skip(2).skip(1);
            lemma_one_char(s.skip(2), '-');
            lemma_last_atom(d2, t);
            assert(forall|i: int| 3 <= i < s.len() ==> #[trigger] s[i] == t[i - 3]);
        }
    }
}

/// The digits and dashes of a stamp.
proof fn lemma_stamp_atoms(age: RotationAge, s: Seq<char>)
    ensures
        atoms_fit(stamp_atoms(age), s) <==> has_stamp_form(s, age),
{
    let d4 = Atom::Digits(4);
    let dash = Atom::Dash;
    let tail = match age {
        RotationAge::Daily => seq![Atom::Digits(2)],
        RotationAge::Hourly => seq![Atom::Digits(2), Atom::Dash, Atom::Digits(2)],
        RotationAge::Minutely => seq![
            Atom::Digits(2),
            Atom::Dash,
            Atom::Digits(2),
            Atom::Dash,
            Atom::Digits(2),
        ],
    };
    let pairs: int = match age {
        RotationAge::Daily => 1,
        RotationAge::Hourly => 2,
        RotationAge::Minutely => 3,
    };
    let d2 = Atom::Digits(2);
    let from_month = seq![d2] + (seq![dash] + tail);
    assert(stamp_atoms(age) =~= seq![d4] + (seq![dash] + from_month));
    lemma_atoms_cut(d4, seq![dash] + from_month, s);
    if s.len() >= 4 {
        lemma_atoms_cut(dash, from_month, s.skip(4));
        lemma_first_digits(s, 4);
        if s.len() >= 5 {
            let month = s.skip(4).skip(1);
            lemma_one_char(s.skip(4), '-');
            lemma_atoms_cut(d2, seq![dash] + tail, month);
            if month.len() >= 2 {
                lemma_first_digits(month, 2);
                assert(month[0] == s[5] && month[1] == s[6]);
                lemma_atoms_cut(dash, tail, month.skip(2));
                if month.len() >= 3 {
                    let rest = month.skip(2).skip(1);
                    lemma_one_char(month.skip(2), '-');
                    lemma_pairs(rest);
                    lemma_stamp_halves(age, s, rest, pairs);
                }
            }
        }
    }
}

/// A stamp is a year, a month and then pairs of digits.
proof fn lemma_stamp_halves(age: RotationAge, s: Seq<char>, rest: Seq<char>, pairs: int)
    requires
        s.len() >= 8,
        rest == s.skip(4).skip(1).skip(2).skip(1),
        pairs == (match age {
            RotationAge::Daily => 1int,
            RotationAge::Hourly => 2int,
            RotationAge::Minutely => 3int,
        }),
    ensures
        has_stamp_form(s, age) <==> {
            &&& forall|i: int| 0 <= i < 4 ==> is_digit(#[trigger] s[i])
            &&& s[4] == '-' && is_digit(s[5]) && is_digit(s[6]) && s[7] == '-'
            &&& has_pairs_form(rest, pairs)
        },
{
    assert(forall|i: int| 8 <= i < s.len() ==> #[trigger] s[i] == rest[i - 8]);
    assert(forall|i: int| 0 <= i < rest.len() ==> #[trigger] rest[i] == s[i + 8]);
    if has_stamp_form(s, age) {
        assert forall|i: int| 0 <= i < rest.len() implies if i == 2 || i == 5 {
            #[trigger] rest[i] == '-'
        } else {
            is_digit(rest[i])
        } by {
            assert(rest[i] == s[i + 8]);
        }
    }
}

/// The part that a name may have behind a dot.
proof fn lemma_optional(text: Seq<char>, s: Seq<char>)
    ensures
        piece_fits(
            Piece { atoms: seq![Atom::Literal(seq!['.']), Atom::Literal(text)], optional: true },
            s,
        ) <==> is_optional(s, Some(text)),
{
    let dot = Atom::Literal(seq!['.']);
    let rest = seq![Atom::Literal(text)];
    assert(seq![dot, Atom::Literal(text)] =~= seq![dot] + rest);
    lemma_atoms_cut(dot, rest, s);
    if s.len() >= 1 {
        lemma_last_atom(Atom::Literal(text), s.skip(1));
        assert(s =~= s.take(1) + s.skip(1));
        if s == seq!['.'] + text {
            assert(s.take(1) =~= seq!['.']);
            assert(s.skip(1) =~= text);
        }
    }
}

/// The parts that a name may have at its end.
proof fn lemma_optional_pieces(part: Option<Seq<char>>, rest: Seq<Piece>, s: Seq<char>)
    ensures
        pieces_fit(optional_pieces(part) + rest, s) <==> exists|a: Seq<char>, b: Seq<char>|
            #![trigger is_optional(a, part), pieces_fit(rest, b)]
            is_optional(a, part) && pieces_fit(rest, b) && s == a + b,
{
    match part {
        Some(text) => {
            let piece = Piece {
                atoms: seq![Atom::Literal(seq!['.']), Atom::Literal(text)],
                optional: true,
            };
            assert(optional_pieces(part) =~= seq![piece]);
            if pieces_fit(optional_pieces(part) + rest, s) {
                let (a, b) = lemma_pieces_fall_apart(piece, rest, s);
                lemma_optional(text, a);
                assert(is_optional(a, part) && pieces_fit(rest, b) && s == a + b);
            }
            if exists|a: Seq<char>, b: Seq<char>|
                #![trigger is_optional(a, part), pieces_fit(rest, b)]
                is_optional(a, part) && pieces_fit(rest, b) && s == a + b {
                let (a, b) = choose|a: Seq<char>, b: Seq<char>|
                    #![trigger is_optional(a, part), pieces_fit(rest, b)]
                    is_optional(a, part) && pieces_fit(rest, b) && s == a + b;
                lemma_optional(text, a);
                lemma_pieces_join(piece, rest, a, b);
            }
        },
        None => {
            let none = Seq::<char>::empty();
            assert(optional_pieces(part) + rest =~= rest);
            assert(is_optional(none, part));
            assert(none + s =~= s);
            if exists|a: Seq<char>, b: Seq<char>|
                #![trigger is_optional(a, part), pieces_fit(rest, b)]
                is_optional(a, part) && pieces_fit(rest, b) && s == a + b {
                let (a, b) = choose|a: Seq<char>, b: Seq<char>|
                    #![trigger is_optional(a, part), pieces_fit(rest, b)]
                    is_optional(a, part) && pieces_fit(rest, b) && s == a + b;
                assert(a + b =~= b);
            }
        },
    }
}

/// The ends that a name may have.
proof fn lemma_ends(suffix: Option<Seq<char>>, extension: Option<Seq<char>>, end: Seq<char>)
    ensures
        pieces_fit(
            optional_pieces(suffix) + (optional_pieces(extension) + Seq::<Piece>::empty()),
            end,
        ) <==> exists|s: Seq<char>, e: Seq<char>|
            #![trigger is_optional(s, suffix), is_optional(e, extension)]
            is_optional(s, suffix) && is_optional(e, extension) && end == s + e,
{
    let nothing = Seq::<Piece>::empty();
    let none = Seq::<char>::empty();
    let last = optional_pieces(extension) + nothing;
    assert(pieces_fit(nothing, none));
    lemma_optional_pieces(suffix, last, end);
    if pieces_fit(optional_pieces(suffix) + last, end) {
        let (s, tail) = choose|a: Seq<char>, b: Seq<char>|
            #![trigger is_optional(a, suffix), pieces_fit(last, b)]
            is_optional(a, suffix) && pieces_fit(last, b) && end == a + b;
        lemma_optional_pieces(extension, nothing, tail);
        let (e, rest) = choose|a: Seq<char>, b: Seq<char>|
            #![trigger is_optional(a, extension), pieces_fit(nothing, b)]
            is_optional(a, extension) && pieces_fit(nothing, b) && tail == a + b;
        assert(tail =~= e);
        assert(is_optional(s, suffix) && is_optional(e, extension) && end == s + e);
    }
    if exists|s: Seq<char>, e: Seq<char>|
        #![trigger is_optional(s, suffix), is_optional(e, extension)]
        is_optional(s, suffix) && is_optional(e, extension) && end == s + e {
        let (s, e) = choose|s: Seq<char>, e: Seq<char>|
            #![trigger is_optional(s, suffix), is_optional(e, extension)]
            is_optional(s, suffix) && is_optional(e, extension) && end == s + e;
        assert(e =~= e + none);
        lemma_optional_pieces(extension, nothing, e);
        assert(pieces_fit(last, e));
    }
}

/// A text for which the expression stands is built as the names of files are.
proof fn lemma_fitting_is_file_name(
    text: Seq<char>,
    filename: Seq<char>,
    rotation: Rotation,
    suffix: Option<Seq<char>>,
    compression: Option<Compression>,
)
    requires
        pieces_fit(file_pieces(filename, rotation, suffix, compression), text),
    ensures
        is_file_name(text, filename, rotation, suffix, compression),
{
    let extension = extension_of(compression);
    let name = Piece { atoms: seq![Atom::Literal(filename)], optional: false };
    let middle = Piece { atoms: middle_atoms(rotation), optional: rotation is SizeBased };
    let nothing = Seq::<Piece>::empty();
    let last = optional_pieces(extension) + nothing;
    let ends = optional_pieces(suffix) + last;
    assert(file_pieces(filename, rotation, suffix, compression) =~= seq![name] + (seq![middle]
        + ends));
    let (n, behind) = lemma_pieces_fall_apart(name, seq![middle] + ends, text);
    lemma_last_atom(Atom::Literal(filename), n);
    let (mid, end) = lemma_pieces_fall_apart(middle, ends, behind);
    lemma_middle(rotation, mid);
    lemma_ends(suffix, extension, end);
    let (s, e) = choose|s: Seq<char>, e: Seq<char>|
        #![trigger is_optional(s, suffix), is_optional(e, extension)]
        is_optional(s, suffix) && is_optional(e, extension) && end == s + e;
    assert(is_middle(mid, rotation));
    assert(text =~= filename + mid + s + e);
}

/// The expression stands for a text that is built as the names of files are.
proof fn lemma_file_name_is_fitting(
    text: Seq<char>,
    filename: Seq<char>,
    rotation: Rotation,
    suffix: Option<Seq<char>>,
    compression: Option<Compression>,
)
    requires
        is_file_name(text, filename, rotation, suffix, compression),
    ensures
        pieces_fit(file_pieces(filename, rotation, suffix, compression), text),
{
    let extension = extension_of(compression);
    let name = Piece { atoms: seq![Atom::Literal(filename)], optional: false };
    let middle = Piece { atoms: middle_atoms(rotation), optional: rotation is SizeBased };
    let nothing = Seq::<Piece>::empty();
    let last = optional_pieces(extension) + nothing;
    let ends = optional_pieces(suffix) + last;
    assert(file_pieces(filename, rotation, suffix, compression) =~= seq![name] + (seq![middle]
        + ends));
    let (mid, s, e) = choose|middle: Seq<char>, s: Seq<char>, e: Seq<char>|
        #![trigger is_middle(middle, rotation), is_optional(s, suffix), is_optional(e, extension_of(compression))]
        {
            &&& is_middle(middle, rotation)
            &&& is_optional(s, suffix)
            &&& is_optional(e, extension_of(compression))
            &&& text == filename + middle + s + e
        };
    assert(is_optional(e, extension));
    lemma_ends(suffix, extension, s + e);
    lemma_middle(rotation, mid);
    lemma_pieces_join(middle, ends, mid, s + e);
    lemma_last_atom(Atom::Literal(filename), filename);
    lemma_pieces_join(name, seq![middle] + ends, filename, mid + (s + e));
    assert(text =~= filename + (mid + (s + e)));
}

/// The expression for the files of a log stands for the names that are built as
/// theirs are, and for no others.
pub proof fn law_pattern_stands_for_file_names(
    text: Seq<char>,
    filename: Seq<char>,
    rotation: Rotation,
    suffix: Option<Seq<char>>,
    compression: Option<Compression>,
)
    ensures
        pieces_fit(file_pieces(filename, rotation, suffix, compression), text) <==> is_file_name(
            text,
            filename,
            rotation,
            suffix,
            compression,
        ),
{
    if is_file_name(text, filename, rotation, suffix, compression) {
        lemma_file_name_is_fitting(text, filename, rotation, suffix, compression);
    }
    if pieces_fit(file_pieces(filename, rotation, suffix, compression), text) {
        lemma_fitting_is_file_name(text, filename, rotation, suffix, compression);
    }
}

/// How digits and dashes are written.
proof fn lemma_digits_text(age: RotationAge)
    ensures
        atoms_text(stamp_atoms(age)) == digits_pattern(age),
{
    let d4 = seq!['[', '0', '-', '9', ']', '{', '4', '}'];
    let d2 = seq!['[', '0', '-', '9', ']', '{', '2', '}'];
    let dash = seq!['-'];
    let none = Seq::<char>::empty();
    reveal_with_fuel(decimal, 2);
    assert(atom_text(Atom::Digits(4)) =~= d4);
    assert(atom_text(Atom::Digits(2)) =~= d2);
    let a = stamp_atoms(age);
    lemma_atoms_text(a, 0);
    lemma_atoms_text(a, 1);
    lemma_atoms_text(a, 2);
    lemma_atoms_text(a, 3);
    lemma_atoms_text(a, 4);
    match age {
        RotationAge::Daily => {
            reveal_strlit("[0-9]{4}-[0-9]{2}-[0-9]{2}");
            assert(digits_pattern(age) =~= d4 + (dash + (d2 + (dash + (d2 + none)))));
        },
        RotationAge::Hourly => {
            lemma_atoms_text(a, 5);
            lemma_atoms_text(a, 6);
            reveal_strlit("[0-9]{4}-[0-9]{2}-[0-9]{2}-[0-9]{2}");
            assert(digits_pattern(age) =~= d4 + (dash + (d2 + (dash + (d2 + (dash + (d2
                + none)))))));
        },
        RotationAge::Minutely => {
            lemma_atoms_text(a, 5);
            lemma_atoms_text(a, 6);
            lemma_atoms_text(a, 7);
            lemma_atoms_text(a, 8);
            reveal_strlit("[0-9]{4}-[0-9]{2}-[0-9]{2}-[0-9]{2}-[0-9]{2}");
            assert(digits_pattern(age) =~= d4 + (dash + (d2 + (dash + (d2 + (dash + (d2 + (dash + (
            d2 + none)))))))));
        },
    }
    assert(a.skip(0) =~= a);
    assert(a.skip(a.len() as int) =~= Seq::<Atom>::empty());
}

/// One atom more, before the others.
proof fn lemma_atoms_text(atoms: Seq<Atom>, i: int)
    requires
        0 <= i < atoms.len(),
    ensures
        atoms_text(atoms.skip(i)) == atom_text(atoms[i]) + atoms_text(atoms.skip(i + 1)),
{
    assert(atoms.skip(i).skip(1) =~= atoms.skip(i + 1));
}

/// A dot, and then other atoms.
proof fn lemma_dot_text(rest: Seq<Atom>)
    ensures
        atoms_text(seq![Atom::Literal(seq!['.'])] + rest) == seq!['\\', '.'] + atoms_text(rest),
{
    reveal_with_fuel(escaped, 2);
    let all = seq![Atom::Literal(seq!['.'])] + rest;
    assert(all.skip(1) =~= rest);
    assert(seq!['.'].drop_last() =~= Seq::<char>::empty());
    assert(escaped(seq!['.']) =~= seq!['\\', '.']);
}

/// One atom alone.
proof fn lemma_one_atom_text(atom: Atom)
    ensures
        atoms_text(seq![atom]) == atom_text(atom),
{
    let all = seq![atom];
    let none = Seq::<Atom>::empty();
    assert(all.skip(1) =~= none);
    assert(atoms_text(none) =~= Seq::<char>::empty());
    assert(atoms_text(all) == atom_text(all[0]) + atoms_text(none));
    assert(atoms_text(all) =~= atom_text(atom));
}

/// How the part behind the name of the log file is written.
proof fn lemma_middle_text(rotation: Rotation)
    ensures
        piece_text(Piece { atoms: middle_atoms(rotation), optional: rotation is SizeBased })
            == middle_pattern(rotation),
{
    let dot = Atom::Literal(seq!['.']);
    match rotation {
        Rotation::SizeBased(_) => {
            reveal_strlit("(\\.[0-9]+)?");
            assert(middle_atoms(rotation) =~= seq![dot] + seq![Atom::Number]);
            lemma_dot_text(seq![Atom::Number]);
            lemma_one_atom_text(Atom::Number);
            assert(middle_pattern(rotation) =~= seq!['('] + (seq!['\\', '.'] + seq![
                '[',
                '0',
                '-',
                '9',
                ']',
                '+',
            ]) + seq![')', '?']);
        },
        Rotation::AgeBased(age) => {
            reveal_strlit("\\.");
            assert(middle_atoms(rotation) =~= seq![dot] + stamp_atoms(age));
            lemma_dot_text(stamp_atoms(age));
            lemma_digits_text(age);
            assert(middle_pattern(rotation) =~= seq!['\\', '.'] + digits_pattern(age));
        },
    }
}

/// How a part that a name may have is written.
proof fn lemma_optional_text(part: Option<Seq<char>>, rest: Seq<Piece>)
    ensures
        pieces_text(optional_pieces(part) + rest) == optional_group(part) + pieces_text(rest),
{
    reveal_strlit("(\\.");
    reveal_strlit(")?");
    match part {
        Some(text) => {
            let dot = Atom::Literal(seq!['.']);
            let literal = Atom::Literal(text);
            let all = optional_pieces(part) + rest;
            assert(all.skip(1) =~= rest);
            assert(all[0].atoms =~= seq![dot] + seq![literal]);
            lemma_dot_text(seq![literal]);
            lemma_one_atom_text(literal);
            assert(piece_text(all[0]) =~= optional_group(part));
        },
        None => {
            assert(optional_pieces(part) + rest =~= rest);
            assert(optional_group(part) + pieces_text(rest) =~= pieces_text(rest));
        },
    }
}

/// The pattern for the files of a log is how the expression of its pieces is written.
pub proof fn lemma_pattern_text(
    filename: Seq<char>,
    rotation: Rotation,
    suffix: Option<Seq<char>>,
    compression: Option<Compression>,
)
    ensures
        file_pattern(filename, rotation, suffix, compression) == expression_text(
            file_pieces(filename, rotation, suffix, compression),
        ),
{
    reveal_strlit("^");
    reveal_strlit("$");
    let extension = extension_of(compression);
    let name = Piece { atoms: seq![Atom::Literal(filename)], optional: false };
    let middle = Piece { atoms: middle_atoms(rotation), optional: rotation is SizeBased };
    let nothing = Seq::<Piece>::empty();
    let last = optional_pieces(extension) + nothing;
    let ends = optional_pieces(suffix) + last;
    let all = file_pieces(filename, rotation, suffix, compression);
    assert(all[0] == name);
    assert(all.skip(1) =~= seq![middle] + ends);
    assert((seq![middle] + ends)[0] == middle);
    assert((seq![middle] + ends).skip(1) =~= ends);
    lemma_one_atom_text(Atom::Literal(filename));
    lemma_middle_text(rotation);
    lemma_optional_text(suffix, last);
    lemma_optional_text(extension, nothing);
    assert("^"@ =~= seq!['^']);
    assert("$"@ =~= seq!['$']);
    assert(pieces_text(nothing) =~= Seq::<char>::empty());
    assert(pieces_text(all) == piece_text(name) + pieces_text(seq![middle] + ends));
    assert(pieces_text(seq![middle] + ends) == piece_text(middle) + pieces_text(ends));
    assert(expression_text(all) =~= file_pattern(filename, rotation, suffix, compression));
}

/// The expression for the files of a log is small where the names are within the
/// limit.
pub proof fn lemma_pattern_is_small(
    filename: Seq<char>,
    rotation: Rotation,
    suffix: Option<Seq<char>>,
    compression: Option<Compression>,
)
    requires
        short_names(filename, suffix),
    ensures
        is_small(file_pieces(filename, rotation, suffix, compression)),
{
    reveal_strlit("gz");
    reveal_strlit("xz");
    let all = file_pieces(filename, rotation, suffix, compression);
    lemma_middle_weight(rotation);
    reveal_with_fuel(pieces_weight, 6);
    reveal_with_fuel(atoms_weight, 4);
    let s = optional_pieces(suffix);
    let e = optional_pieces(extension_of(compression));
    assert(all[0] == Piece { atoms: seq![Atom::Literal(filename)], optional: false });
    assert(all.skip(1)[0] == all[1]);
    assert(all.skip(1).skip(1) =~= s + e);
    assert(atoms_weight(all[0].atoms) == filename.len());
    lemma_optional_weight(suffix);
    lemma_optional_weight(extension_of(compression));
    if s.len() == 0 {
        assert(s + e =~= e);
    } else {
        assert((s + e)[0] == s[0]);
        assert((s + e).skip(1) =~= e);
    }
    if e.len() > 0 {
        assert(e.skip(1) =~= Seq::<Piece>::empty());
    }
}

/// The weight of the part behind the name of the log file.
proof fn lemma_middle_weight(rotation: Rotation)
    ensures
        atoms_weight(middle_atoms(rotation)) <= 17,
        middle_atoms(rotation).len() <= 10,
{
    reveal_with_fuel(atoms_weight, 12);
}

/// The weight of a part that a name may have.
proof fn lemma_optional_weight(part: Option<Seq<char>>)
    ensures
        part matches Some(text) ==> optional_pieces(part).len() == 1 && optional_pieces(
            part,
        )[0].atoms.len() == 2 && atoms_weight(optional_pieces(part)[0].atoms) == 1 + text.len(),
{
    reveal_with_fuel(atoms_weight, 4);
}

/// The log file of size-based rotation and its rotated files, compressed or not,
/// are built as the names of the log's files are.
pub proof fn law_numbered_files_fit(
    filename: Seq<char>,
    size: RotationSize,
    suffix: Option<Seq<char>>,
    compression: Option<Compression>,
    i: nat,
)
    ensures
        ({
            let rotation = Rotation::SizeBased(size);
            &&& is_file_name(filename, filename, rotation, suffix, compression)
            &&& is_file_name(rotated_name(filename, i), filename, rotation, suffix, compression)
            &&& compression matches Some(c) ==> is_file_name(
                packed_name(filename, i, c.extension()),
                filename,
                rotation,
                suffix,
                compression,
            )
        }),
{
    let rotation = Rotation::SizeBased(size);
    let none = Seq::<char>::empty();
    let number = seq!['.'] + decimal(i);
    lemma_decimal(i);
    assert(number.skip(1) =~= decimal(i));
    assert(is_middle(none, rotation) && is_middle(number, rotation));
    assert(is_optional(none, suffix) && is_optional(none, extension_of(compression)));
    assert(filename =~= filename + none + none + none);
    assert(rotated_name(filename, i) =~= filename + number + none + none);
    if let Some(c) = compression {
        let extension = seq!['.'] + c.extension();
        assert(is_optional(extension, extension_of(compression)));
        assert(packed_name(filename, i, c.extension()) =~= filename + number + none + extension);
    }
}

/// The log files of age-based rotation, compressed or not, are built as the names
/// of the log's files are.
pub proof fn law_dated_files_fit(m: MetaView, age: RotationAge, t: TimeView, name: Seq<char>)
    requires
        m.rotation == Rotation::AgeBased(age),
        no_percent(m.filename),
        has_four_digit_year(t),
        is_dated_name(m, age, t, name),
    ensures
        is_file_name(name, m.filename, m.rotation, m.suffix, m.compression),
        m.compression matches Some(c) ==> is_file_name(
            name + seq!['.'] + c.extension(),
            m.filename,
            m.rotation,
            m.suffix,
            m.compression,
        ),
{
    let text = choose|text: Seq<char>|
        #[trigger] is_stamp(text, age, t) && name == m.filename + seq!['.'] + text + suffix_part(
            m.suffix,
        );
    let none = Seq::<char>::empty();
    let middle = seq!['.'] + text;
    let s = suffix_part(m.suffix);
    lemma_stamp_form(text, age, t);
    assert(middle.skip(1) =~= text);
    assert(is_middle(middle, m.rotation));
    assert(is_optional(s, m.suffix));
    assert(is_optional(none, extension_of(m.compression)));
    assert(name =~= m.filename + middle + s + none);
    if let Some(c) = m.compression {
        let extension = seq!['.'] + c.extension();
        assert(is_optional(extension, extension_of(m.compression)));
        assert(name + seq!['.'] + c.extension() =~= m.filename + middle + s + extension);
    }
}

/// Whatever the date and the time of day are, down to the last minute of the last
/// day, the name of the log file, a dot and their stamp are built as the names of the
/// log's files are, with or without the suffix and with or without the extension of
/// compressed files behind them.
pub proof fn law_every_stamp_fits(
    filename: Seq<char>,
    age: RotationAge,
    suffix: Option<Seq<char>>,
    compression: Option<Compression>,
    year: int,
    month: int,
    day: int,
    hour: int,
    minute: int,
)
    requires
        0 <= year <= 9999,
        is_date(year, month, day),
        0 <= hour <= 23,
        0 <= minute <= 59,
    ensures
        ({
            let name = filename + seq!['.'] + stamp(age, year, month, day, hour, minute);
            let rotation = Rotation::AgeBased(age);
            &&& is_file_name(name, filename, rotation, suffix, compression)
            &&& suffix matches Some(s) ==> is_file_name(
                name + seq!['.'] + s,
                filename,
                rotation,
                suffix,
                compression,
            )
            &&& compression matches Some(c) ==> is_file_name(
                name + seq!['.'] + c.extension(),
                filename,
                rotation,
                suffix,
                compression,
            )
            &&& suffix matches Some(s) ==> (compression matches Some(c) ==> is_file_name(
                name + seq!['.'] + s + seq!['.'] + c.extension(),
                filename,
                rotation,
                suffix,
                compression,
            ))
        }),
{
    let text = stamp(age, year, month, day, hour, minute);
    let name = filename + seq!['.'] + text;
    let rotation = Rotation::AgeBased(age);
    let none = Seq::<char>::empty();
    let middle = seq!['.'] + text;
    let extension = extension_of(compression);
    lemma_two_digits(year / 100);
    lemma_two_digits(year % 100);
    lemma_two_digits(month);
    lemma_two_digits(day);
    lemma_two_digits(hour);
    lemma_two_digits(minute);
    assert(middle.skip(1) =~= text);
    assert(has_stamp_form(text, age));
    assert(is_middle(middle, rotation));
    assert(is_optional(none, suffix) && is_optional(none, extension));
    assert(name =~= filename + middle + none + none);
    if let Some(s) = suffix {
        let end = seq!['.'] + s;
        assert(is_optional(end, suffix));
        assert(name + seq!['.'] + s =~= filename + middle + end + none);
        if let Some(c) = compression {
            let last = seq!['.'] + c.extension();
            assert(is_optional(last, extension));
            assert(name + seq!['.'] + s + seq!['.'] + c.extension() =~= filename + middle + end
                + last);
        }
    }
    if let Some(c) = compression {
        let last = seq!['.'] + c.extension();
        assert(is_optional(last, extension));
        assert(name + seq!['.'] + c.extension() =~= filename + middle + none + last);
    }
}

/// A stamp has the form of a stamp.
proof fn lemma_stamp_form(text: Seq<char>, age: RotationAge, t: TimeView)
    requires
        is_stamp(text, age, t),
    ensures
        has_stamp_form(text, age),
{
    reveal(is_stamp);
    let (year, month, day) = choose|year: int, month: int, day: int|
        {
            &&& 0 <= year <= 9999
            &&& is_date(year, month, day)
            &&& #[trigger] day_number(year, month, day) == t.day()
            &&& text == stamp(age, year, month, day, t.hour(), t.minute())
        };
    lemma_two_digits(year / 100);
    lemma_two_digits(year % 100);
    lemma_two_digits(month);
    lemma_two_digits(day);
    lemma_two_digits(t.hour());
    lemma_two_digits(t.minute());
}

/// Two digits are digits.
proof fn lemma_two_digits(n: int)
    requires
        0 <= n < 100,
    ensures
        two_digits(n).len() == 2,
        is_digit(two_digits(n)[0]),
        is_digit(two_digits(n)[1]),
{
}

} // verus!
