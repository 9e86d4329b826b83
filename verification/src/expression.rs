//! The regular expressions of which the library makes use, and the texts that they
//! stand for.
//!
//! An expression is a row of pieces between the anchors for the beginning and the end
//! of the text. A piece is a row of atoms; it stands once, or once or not at all.
use crate::pattern::escaped;
use crate::text::{all_digits, decimal};
use vstd::prelude::*;

verus! {

/// What a piece is made of.
pub enum Atom {
    /// A text that stands for itself.
    Literal(Seq<char>),
    /// A dash.
    Dash,
    /// So many ASCII digits.
    Digits(nat),
    /// One ASCII digit or more.
    Number,
}

/// A part of an expression.
pub struct Piece {
    pub atoms: Seq<Atom>,
    /// The piece may be left out.
    pub optional: bool,
}

/// How the atom is written.
pub open spec fn atom_text(atom: Atom) -> Seq<char> {
    match atom {
        Atom::Literal(text) => escaped(text),
        Atom::Dash => seq!['-'],
        Atom::Digits(n) => seq!['[', '0', '-', '9', ']', '{'] + decimal(n) + seq!['}'],
        Atom::Number => seq!['[', '0', '-', '9', ']', '+'],
    }
}

/// How a row of atoms is written.
pub open spec fn atoms_text(atoms: Seq<Atom>) -> Seq<char>
    decreases atoms.len(),
{
    if atoms.len() == 0 {
        Seq::empty()
    } else {
        atom_text(atoms[0]) + atoms_text(atoms.skip(1))
    }
}

/// How a piece is written: in a group with a question mark where it is optional.
pub open spec fn piece_text(piece: Piece) -> Seq<char> {
    if piece.optional {
        seq!['('] + atoms_text(piece.atoms) + seq![')', '?']
    } else {
        atoms_text(piece.atoms)
    }
}

/// How a row of pieces is written.
pub open spec fn pieces_text(pieces: Seq<Piece>) -> Seq<char>
    decreases pieces.len(),
{
    if pieces.len() == 0 {
        Seq::empty()
    } else {
        piece_text(pieces[0]) + pieces_text(pieces.skip(1))
    }
}

/// How the expression of these pieces is written.
pub open spec fn expression_text(pieces: Seq<Piece>) -> Seq<char> {
    seq!['^'] + pieces_text(pieces) + seq!['$']
}

/// The atom stands for the text.
pub open spec fn atom_fits(atom: Atom, s: Seq<char>) -> bool {
    match atom {
        Atom::Literal(text) => s == text,
        Atom::Dash => s == seq!['-'],
        Atom::Digits(n) => s.len() == n && all_digits(s),
        Atom::Number => s.len() >= 1 && all_digits(s),
    }
}

/// The atoms, one after the other, stand for the text.
pub open spec fn atoms_fit(atoms: Seq<Atom>, s: Seq<char>) -> bool
    decreases atoms.len(),
{
    if atoms.len() == 0 {
        s.len() == 0
    } else {
        exists|k: int|
            0 <= k <= s.len() && atom_fits(atoms[0], #[trigger] s.take(k)) && atoms_fit(
                atoms.skip(1),
                s.skip(k),
            )
    }
}

/// The piece stands for the text.
pub open spec fn piece_fits(piece: Piece, s: Seq<char>) -> bool {
    (piece.optional && s.len() == 0) || atoms_fit(piece.atoms, s)
}

/// The pieces, one after the other, stand for the text.
pub open spec fn pieces_fit(pieces: Seq<Piece>, s: Seq<char>) -> bool
    decreases pieces.len(),
{
    if pieces.len() == 0 {
        s.len() == 0
    } else {
        exists|k: int|
            0 <= k <= s.len() && piece_fits(pieces[0], #[trigger] s.take(k)) && pieces_fit(
                pieces.skip(1),
                s.skip(k),
            )
    }
}

/// How many characters the atom can take up, or has to, at least.
pub open spec fn atom_weight(atom: Atom) -> nat {
    match atom {
        Atom::Literal(text) => text.len(),
        Atom::Dash => 1,
        Atom::Digits(n) => n,
        Atom::Number => 1,
    }
}

/// The weights of the atoms together.
pub open spec fn atoms_weight(atoms: Seq<Atom>) -> nat
    decreases atoms.len(),
{
    if atoms.len() == 0 {
        0
    } else {
        atom_weight(atoms[0]) + atoms_weight(atoms.skip(1))
    }
}

/// The weights of the pieces together.
pub open spec fn pieces_weight(pieces: Seq<Piece>) -> nat
    decreases pieces.len(),
{
    if pieces.len() == 0 {
        0
    } else {
        atoms_weight(pieces[0].atoms) + pieces_weight(pieces.skip(1))
    }
}

/// The most that an expression can weigh that is surely accepted.
pub const WEIGHT_LIMIT: usize = 65600;

/// The expression is so small that it is surely accepted: it has few pieces of few
/// atoms, and weighs no more than the limit.
pub open spec fn is_small(pieces: Seq<Piece>) -> bool {
    &&& pieces.len() <= 16
    &&& forall|i: int| 0 <= i < pieces.len() ==> (#[trigger] pieces[i]).atoms.len() <= 16
    &&& pieces_weight(pieces) <= WEIGHT_LIMIT
}

/// The width of the texts for which the atom stands, unless it has none.
pub open spec fn atom_width(atom: Atom) -> Option<nat> {
    match atom {
        Atom::Literal(text) => Some(text.len()),
        Atom::Dash => Some(1),
        Atom::Digits(n) => Some(n),
        Atom::Number => None,
    }
}

/// Where the first atom has a width, the text is cut behind it.
pub proof fn lemma_atoms_cut(atom: Atom, rest: Seq<Atom>, s: Seq<char>)
    requires
        atom_width(atom) is Some,
    ensures
        ({
            let w = atom_width(atom)->0 as int;
            atoms_fit(seq![atom] + rest, s) <==> s.len() >= w && atom_fits(atom, s.take(w))
                && atoms_fit(rest, s.skip(w))
        }),
{
    let w = atom_width(atom)->0 as int;
    let all = seq![atom] + rest;
    assert(all[0] == atom);
    assert(all.skip(1) =~= rest);
    if atoms_fit(all, s) {
        let k = choose|k: int|
            0 <= k <= s.len() && atom_fits(all[0], #[trigger] s.take(k)) && atoms_fit(
                all.skip(1),
                s.skip(k),
            );
        assert(s.take(k).len() == w);
    }
}

/// A last atom stands for what it stands for alone.
pub proof fn lemma_last_atom(atom: Atom, s: Seq<char>)
    ensures
        atoms_fit(seq![atom], s) <==> atom_fits(atom, s),
{
    let all = seq![atom];
    assert(all.skip(1) =~= Seq::<Atom>::empty());
    if atom_fits(atom, s) {
        assert(s.take(s.len() as int) =~= s);
        assert(atom_fits(all[0], s.take(s.len() as int)));
        assert(atoms_fit(all.skip(1), s.skip(s.len() as int)));
    }
    if atoms_fit(all, s) {
        let k = choose|k: int|
            0 <= k <= s.len() && atom_fits(all[0], #[trigger] s.take(k)) && atoms_fit(
                all.skip(1),
                s.skip(k),
            );
        assert(s.skip(k).len() == 0);
        assert(s.take(k) =~= s);
    }
}

/// A text for which pieces stand falls into two: one for the first piece, and one for
/// the others.
pub proof fn lemma_pieces_fall_apart(piece: Piece, rest: Seq<Piece>, s: Seq<char>) -> (parts: (
    Seq<char>,
    Seq<char>,
))
    requires
        pieces_fit(seq![piece] + rest, s),
    ensures
        s == parts.0 + parts.1,
        piece_fits(piece, parts.0),
        pieces_fit(rest, parts.1),
{
    let all = seq![piece] + rest;
    assert(all.skip(1) =~= rest);
    let k = choose|k: int|
        0 <= k <= s.len() && piece_fits(all[0], #[trigger] s.take(k)) && pieces_fit(
            all.skip(1),
            s.skip(k),
        );
    assert(s =~= s.take(k) + s.skip(k));
    (s.take(k), s.skip(k))
}

/// Two texts, one for the first piece and one for the others, are together one for
/// all of them.
pub proof fn lemma_pieces_join(piece: Piece, rest: Seq<Piece>, a: Seq<char>, b: Seq<char>)
    requires
        piece_fits(piece, a),
        pieces_fit(rest, b),
    ensures
        pieces_fit(seq![piece] + rest, a + b),
{
    let all = seq![piece] + rest;
    let s = a + b;
    let k = a.len() as int;
    assert(all[0] == piece);
    assert(all.skip(1) =~= rest);
    assert(s.take(k) =~= a);
    assert(s.skip(k) =~= b);
    assert(piece_fits(all[0], s.take(k)));
}

} // verus!
