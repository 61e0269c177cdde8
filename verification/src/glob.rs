//! Shell-style glob patterns used by the server's access rules.
//!
//! Syntax:
//! - `*` matches any sequence of characters (including an empty sequence);
//!   `**` is two stars and matches the same.
//! - `?` matches exactly one character.
//! - `[ab]` matches one of the listed characters, `[a-z]` one in the range,
//!   and `[!ab]` or `[^ab]` one character not listed. A `]` or `-` first in
//!   the class, and a `-` last, stand for themselves.
//! - `{a,b}` matches either alternative, where each alternative is a glob
//!   without braces; a comma outside braces is an ordinary character.
//! - `\c` matches the character `c` itself, whatever it is.
//!
//! All other characters match literally, and case matters. `*` and `?` match
//! across any character, including spaces and `/`, so a pattern like `list *`
//! matches `list /tmp/x`. A malformed pattern (an unclosed `[` or `{`, a `}`
//! without `{`, a `{` inside braces, a reversed range, a trailing `\`) is an
//! error rather than a pattern.
use vstd::prelude::*;

use crate::text::chars_of;

verus! {

/// Why a pattern is not a glob.
#[derive(Debug, PartialEq, Eq)]
pub enum GlobError {
    /// A `[` without its `]`.
    UnclosedClass,
    /// A range in a class whose end comes before its start.
    InvalidRange(char, char),
    /// A `}` without an opening `{`.
    UnopenedAlternates,
    /// A `{` without its `}`.
    UnclosedAlternates,
    /// A `{` inside braces.
    NestedAlternates,
    /// A `\` at the end of the pattern.
    DanglingEscape,
}

/// One element of a glob that matches one character or, for `Star`, any run.
pub enum GlobAtom {
    Char(char),
    Any,
    Star,
    Class(bool, Seq<(char, char)>),
}

/// One element of a glob: an atom, or a set of alternatives.
pub enum GlobPiece {
    One(GlobAtom),
    Alternates(Seq<Seq<GlobAtom>>),
}

// ---------------------------------------------------------------------------
// The grammar
// ---------------------------------------------------------------------------

/// The ranges of a class whose body is read from `i` on, given the ranges read
/// so far, whether no character was read yet, and whether a `-` is pending.
pub open spec fn class_from(
    p: Seq<char>,
    i: int,
    ranges: Seq<(char, char)>,
    first: bool,
    in_range: bool,
) -> Result<(Seq<(char, char)>, int), GlobError>
    decreases p.len() - i,
{
    if i < 0 || i >= p.len() {
        Err(GlobError::UnclosedClass)
    } else if p[i] == ']' && !first {
        Ok(
            (
                if in_range {
                    ranges.push(('-', '-'))
                } else {
                    ranges
                },
                i + 1,
            ),
        )
    } else if p[i] == ']' || (p[i] == '-' && first) {
        class_from(p, i + 1, ranges.push((p[i], p[i])), false, false)
    } else if p[i] == '-' && !in_range {
        class_from(p, i + 1, ranges, false, true)
    } else if in_range {
        let lo = ranges.last().0;
        if (p[i] as int) < (lo as int) {
            Err(GlobError::InvalidRange(lo, p[i]))
        } else {
            class_from(p, i + 1, ranges.drop_last().push((lo, p[i])), false, false)
        }
    } else {
        class_from(p, i + 1, ranges.push((p[i], p[i])), false, false)
    }
}

/// The class whose body starts at `i` (just after its `[`), and where it ends.
pub open spec fn class_at(p: Seq<char>, i: int) -> Result<(GlobAtom, int), GlobError> {
    let negated = 0 <= i < p.len() && (p[i] == '!' || p[i] == '^');
    let start = if negated {
        i + 1
    } else {
        i
    };
    match class_from(p, start, Seq::empty(), true, false) {
        Ok((ranges, j)) => Ok((GlobAtom::Class(negated, ranges), j)),
        Err(e) => Err(e),
    }
}

/// The atom at `i` (not a brace), and where it ends.
pub open spec fn atom_at(p: Seq<char>, i: int) -> Result<(GlobAtom, int), GlobError> {
    if p[i] == '?' {
        Ok((GlobAtom::Any, i + 1))
    } else if p[i] == '*' {
        Ok((GlobAtom::Star, i + 1))
    } else if p[i] == '[' {
        class_at(p, i + 1)
    } else if p[i] == '\\' {
        if i + 1 < p.len() {
            Ok((GlobAtom::Char(p[i + 1]), i + 2))
        } else {
            Err(GlobError::DanglingEscape)
        }
    } else {
        Ok((GlobAtom::Char(p[i]), i + 1))
    }
}

pub proof fn lemma_class_from_advances(
    p: Seq<char>,
    i: int,
    ranges: Seq<(char, char)>,
    first: bool,
    in_range: bool,
)
    ensures
        class_from(p, i, ranges, first, in_range) matches Ok((_, j)) ==> i < j <= p.len(),
    decreases p.len() - i,
{
    if 0 <= i < p.len() {
        lemma_class_from_advances(p, i + 1, ranges.push((p[i], p[i])), false, false);
        lemma_class_from_advances(p, i + 1, ranges, false, true);
        lemma_class_from_advances(
            p,
            i + 1,
            ranges.drop_last().push((ranges.last().0, p[i])),
            false,
            false,
        );
    }
}

pub proof fn lemma_atom_advances(p: Seq<char>, i: int)
    requires
        0 <= i < p.len(),
    ensures
        atom_at(p, i) matches Ok((_, j)) ==> i < j <= p.len(),
{
    if p[i] == '[' {
        lemma_class_from_advances(p, i + 1, Seq::empty(), true, false);
        lemma_class_from_advances(p, i + 2, Seq::empty(), true, false);
    }
}

/// The alternatives of a brace group read from `i` on, given the finished
/// alternatives and the one being read; and where the group ends.
pub open spec fn alts_from(
    p: Seq<char>,
    i: int,
    alts: Seq<Seq<GlobAtom>>,
    cur: Seq<GlobAtom>,
) -> Result<(Seq<Seq<GlobAtom>>, int), GlobError>
    decreases p.len() - i,
{
    if i < 0 || i >= p.len() {
        Err(GlobError::UnclosedAlternates)
    } else if p[i] == '}' {
        Ok((alts.push(cur), i + 1))
    } else if p[i] == ',' {
        alts_from(p, i + 1, alts.push(cur), Seq::empty())
    } else if p[i] == '{' {
        Err(GlobError::NestedAlternates)
    } else {
        match atom_at(p, i) {
            Err(e) => Err(e),
            Ok((a, j)) => {
                proof {
                    lemma_atom_advances(p, i);
                }
                alts_from(p, j, alts, cur.push(a))
            },
        }
    }
}

pub proof fn lemma_alts_advance(p: Seq<char>, i: int, alts: Seq<Seq<GlobAtom>>, cur: Seq<GlobAtom>)
    ensures
        alts_from(p, i, alts, cur) matches Ok((_, j)) ==> i < j <= p.len(),
    decreases p.len() - i,
{
    if 0 <= i < p.len() && p[i] != '}' && p[i] != '{' {
        if p[i] == ',' {
            lemma_alts_advance(p, i + 1, alts.push(cur), Seq::empty());
        } else {
            lemma_atom_advances(p, i);
            if let Ok((a, j)) = atom_at(p, i) {
                lemma_alts_advance(p, j, alts, cur.push(a));
            }
        }
    }
}

/// The pieces of the pattern read from `i` on, after the pieces `acc`.
pub open spec fn pieces_from(p: Seq<char>, i: int, acc: Seq<GlobPiece>) -> Result<
    Seq<GlobPiece>,
    GlobError,
>
    decreases p.len() - i,
{
    if i < 0 || i >= p.len() {
        Ok(acc)
    } else if p[i] == '{' {
        match alts_from(p, i + 1, Seq::empty(), Seq::empty()) {
            Err(e) => Err(e),
            Ok((alts, j)) => {
                proof {
                    lemma_alts_advance(p, i + 1, Seq::empty(), Seq::empty());
                }
                pieces_from(p, j, acc.push(GlobPiece::Alternates(alts)))
            },
        }
    } else if p[i] == '}' {
        Err(GlobError::UnopenedAlternates)
    } else {
        match atom_at(p, i) {
            Err(e) => Err(e),
            Ok((a, j)) => {
                proof {
                    lemma_atom_advances(p, i);
                }
                pieces_from(p, j, acc.push(GlobPiece::One(a)))
            },
        }
    }
}

/// The glob that `pattern` spells, or why it spells none.
pub open spec fn parse_glob(pattern: Seq<char>) -> Result<Seq<GlobPiece>, GlobError> {
    pieces_from(pattern, 0, Seq::empty())
}

// ---------------------------------------------------------------------------
// What a glob matches
//
// A glob is read left to right over the text. Before it, a match can only
// start at position 0; after each piece, the positions where a match of the
// pattern so far can end are those reached by that piece from a position
// reached before it. The glob matches the whole text when, after its last
// piece, the end of the text is reached.
// ---------------------------------------------------------------------------

/// Whether the character `c` belongs to the class.
pub open spec fn class_has(negated: bool, ranges: Seq<(char, char)>, c: char) -> bool {
    (exists|k: int|
        0 <= k < ranges.len() && (ranges[k].0 as int) <= (c as int) && (c as int) <= (
        #[trigger] ranges[k]).1 as int) != negated
}

/// Whether the atom matches the text between positions `j` and `k`.
pub open spec fn atom_matches(a: GlobAtom, t: Seq<char>, j: int, k: int) -> bool {
    match a {
        GlobAtom::Char(c) => 0 <= j < t.len() && k == j + 1 && t[j] == c,
        GlobAtom::Any => 0 <= j < t.len() && k == j + 1,
        GlobAtom::Class(negated, ranges) => 0 <= j < t.len() && k == j + 1 && class_has(
            negated,
            ranges,
            t[j],
        ),
        GlobAtom::Star => 0 <= j <= k <= t.len(),
    }
}

/// Whether position `l` is reached by `a` from a position marked in `reach`.
pub open spec fn after_atom(a: GlobAtom, t: Seq<char>, reach: Seq<bool>, l: int) -> bool {
    exists|j: int| 0 <= j <= t.len() && reach[j] && #[trigger] atom_matches(a, t, j, l)
}

/// The positions reached by `a` from those marked in `reach`, as flags for `0..=t.len()`.
pub open spec fn atom_reach(a: GlobAtom, t: Seq<char>, reach: Seq<bool>) -> Seq<bool> {
    Seq::new((t.len() + 1) as nat, |l: int| after_atom(a, t, reach, l))
}

/// The positions reached by the atoms, in order, from those marked in `reach`.
pub open spec fn atoms_reach(atoms: Seq<GlobAtom>, t: Seq<char>, reach: Seq<bool>) -> Seq<bool>
    decreases atoms.len(),
{
    if atoms.len() == 0 {
        reach
    } else {
        atom_reach(atoms.last(), t, atoms_reach(atoms.drop_last(), t, reach))
    }
}

/// The positions reached by the piece from those marked in `reach`: for a
/// brace group, those reached by any one of its alternatives.
pub open spec fn piece_reach(pc: GlobPiece, t: Seq<char>, reach: Seq<bool>) -> Seq<bool> {
    match pc {
        GlobPiece::One(a) => atom_reach(a, t, reach),
        GlobPiece::Alternates(alts) => Seq::new(
            (t.len() + 1) as nat,
            |l: int| exists|x: int| 0 <= x < alts.len() && #[trigger] atoms_reach(alts[x], t, reach)[l],
        ),
    }
}

/// Only the start of the text, as flags.
pub open spec fn start_flags(t: Seq<char>) -> Seq<bool> {
    Seq::new((t.len() + 1) as nat, |l: int| l == 0)
}

/// The positions where a match of the pieces, started at 0, can end.
pub open spec fn pieces_reach(ps: Seq<GlobPiece>, t: Seq<char>) -> Seq<bool>
    decreases ps.len(),
{
    if ps.len() == 0 {
        start_flags(t)
    } else {
        piece_reach(ps.last(), t, pieces_reach(ps.drop_last(), t))
    }
}

/// Whether the glob `pattern` matches the whole of `text`; a malformed pattern matches nothing.
pub open spec fn glob_matches(pattern: Seq<char>, text: Seq<char>) -> bool {
    match parse_glob(pattern) {
        Ok(ps) => pieces_reach(ps, text)[text.len() as int],
        Err(_) => false,
    }
}

// ---------------------------------------------------------------------------
// Compiled globs
// ---------------------------------------------------------------------------

/// A compiled atom.
#[derive(Debug)]
pub enum Atom {
    Char(char),
    Any,
    Star,
    Class { negated: bool, ranges: Vec<(char, char)> },
}

impl View for Atom {
    type V = GlobAtom;

    open spec fn view(&self) -> GlobAtom {
        match self {
            Atom::Char(c) => GlobAtom::Char(*c),
            Atom::Any => GlobAtom::Any,
            Atom::Star => GlobAtom::Star,
            Atom::Class { negated, ranges } => GlobAtom::Class(*negated, ranges@),
        }
    }
}

/// The views of compiled atoms.
pub open spec fn atoms_view(v: Seq<Atom>) -> Seq<GlobAtom> {
    v.map_values(|a: Atom| a@)
}

/// The views of compiled alternatives.
pub open spec fn alts_view(v: Seq<Vec<Atom>>) -> Seq<Seq<GlobAtom>> {
    v.map_values(|alt: Vec<Atom>| atoms_view(alt@))
}

/// A compiled piece.
#[derive(Debug)]
pub enum Piece {
    One(Atom),
    Alternates(Vec<Vec<Atom>>),
}

impl View for Piece {
    type V = GlobPiece;

    open spec fn view(&self) -> GlobPiece {
        match self {
            Piece::One(a) => GlobPiece::One(a@),
            Piece::Alternates(alts) => GlobPiece::Alternates(alts_view(alts@)),
        }
    }
}

/// The views of compiled pieces.
pub open spec fn pieces_view(v: Seq<Piece>) -> Seq<GlobPiece> {
    v.map_values(|pc: Piece| pc@)
}

/// A compiled glob pattern.
#[derive(Debug)]
pub struct Glob {
    pub pieces: Vec<Piece>,
}

impl View for Glob {
    type V = Seq<GlobPiece>;

    open spec fn view(&self) -> Seq<GlobPiece> {
        pieces_view(self.pieces@)
    }
}

/// Reads the class whose body starts at `i`, just after its `[`.
fn parse_class(p: &[char], i: usize) -> (res: Result<(Atom, usize), GlobError>)
    requires
        i <= p@.len(),
    ensures
        match res {
            Ok((a, j)) => class_at(p@, i as int) == Ok::<(GlobAtom, int), GlobError>(
                (a@, j as int),
            ),
            Err(e) => class_at(p@, i as int) == Err::<(GlobAtom, int), GlobError>(e),
        },
{
    let n = p.len();
    let negated = i < n && (p[i] == '!' || p[i] == '^');
    let start = if negated {
        i + 1
    } else {
        i
    };
    let ghost target = class_from(p@, start as int, Seq::empty(), true, false);
    let mut ranges: Vec<(char, char)> = Vec::new();
    let mut first = true;
    let mut in_range = false;
    let mut k = start;
    proof {
        assert(ranges@ =~= Seq::<(char, char)>::empty());
    }
    loop
        invariant
            n == p@.len(),
            start <= k <= n,
            class_from(p@, k as int, ranges@, first, in_range) == target,
            target == class_from(p@, start as int, Seq::empty(), true, false),
            class_at(p@, i as int) == match target {
                Ok((r, j)) => Ok::<(GlobAtom, int), GlobError>((GlobAtom::Class(negated, r), j)),
                Err(e) => Err::<(GlobAtom, int), GlobError>(e),
            },
            !first ==> ranges@.len() > 0,
            in_range ==> !first,
        decreases n - k,
    {
        if k >= n {
            return Err(GlobError::UnclosedClass);
        }
        let c = p[k];
        if c == ']' && !first {
            if in_range {
                ranges.push(('-', '-'));
            }
            return Ok((Atom::Class { negated, ranges }, k + 1));
        } else if c == ']' || (c == '-' && first) {
            ranges.push((c, c));
            first = false;
            in_range = false;
        } else if c == '-' && !in_range {
            first = false;
            in_range = true;
        } else if in_range {
            let last = ranges.len() - 1;
            let lo = ranges[last].0;
            if c < lo {
                return Err(GlobError::InvalidRange(lo, c));
            }
            let ghost before = ranges@;
            ranges.set(last, (lo, c));
            proof {
                assert(ranges@ =~= before.drop_last().push((lo, c)));
            }
            first = false;
            in_range = false;
        } else {
            ranges.push((c, c));
            first = false;
        }
        k = k + 1;
    }
}

/// Reads the atom at `i`, which is not a brace.
fn parse_atom(p: &[char], i: usize) -> (res: Result<(Atom, usize), GlobError>)
    requires
        i < p@.len(),
    ensures
        match res {
            Ok((a, j)) => atom_at(p@, i as int) == Ok::<(GlobAtom, int), GlobError>(
                (a@, j as int),
            ),
            Err(e) => atom_at(p@, i as int) == Err::<(GlobAtom, int), GlobError>(e),
        },
{
    let c = p[i];
    if c == '?' {
        Ok((Atom::Any, i + 1))
    } else if c == '*' {
        Ok((Atom::Star, i + 1))
    } else if c == '[' {
        parse_class(p, i + 1)
    } else if c == '\\' {
        if i + 1 < p.len() {
            Ok((Atom::Char(p[i + 1]), i + 2))
        } else {
            Err(GlobError::DanglingEscape)
        }
    } else {
        Ok((Atom::Char(c), i + 1))
    }
}

/// Reads the alternatives of the brace group whose body starts at `i`.
fn parse_alternates(p: &[char], i: usize) -> (res: Result<(Vec<Vec<Atom>>, usize), GlobError>)
    requires
        i <= p@.len(),
    ensures
        match res {
            Ok((alts, j)) => alts_from(p@, i as int, Seq::empty(), Seq::empty()) == Ok::<
                (Seq<Seq<GlobAtom>>, int),
                GlobError,
            >((alts_view(alts@), j as int)),
            Err(e) => alts_from(p@, i as int, Seq::empty(), Seq::empty()) == Err::<
                (Seq<Seq<GlobAtom>>, int),
                GlobError,
            >(e),
        },
{
    let n = p.len();
    let ghost target = alts_from(p@, i as int, Seq::empty(), Seq::empty());
    let mut alts: Vec<Vec<Atom>> = Vec::new();
    let mut cur: Vec<Atom> = Vec::new();
    let mut k = i;
    proof {
        assert(alts_view(alts@) =~= Seq::<Seq<GlobAtom>>::empty());
        assert(atoms_view(cur@) =~= Seq::<GlobAtom>::empty());
    }
    loop
        invariant
            n == p@.len(),
            i <= k <= n,
            alts_from(p@, k as int, alts_view(alts@), atoms_view(cur@)) == target,
            target == alts_from(p@, i as int, Seq::empty(), Seq::empty()),
        decreases n - k,
    {
        if k >= n {
            return Err(GlobError::UnclosedAlternates);
        }
        let c = p[k];
        if c == '}' {
            let ghost before = alts_view(alts@);
            let ghost last = atoms_view(cur@);
            alts.push(cur);
            proof {
                assert(alts_view(alts@) =~= before.push(last));
            }
            return Ok((alts, k + 1));
        } else if c == ',' {
            let ghost before = alts_view(alts@);
            let ghost last = atoms_view(cur@);
            alts.push(cur);
            cur = Vec::new();
            proof {
                assert(alts_view(alts@) =~= before.push(last));
                assert(atoms_view(cur@) =~= Seq::<GlobAtom>::empty());
            }
            k = k + 1;
        } else if c == '{' {
            return Err(GlobError::NestedAlternates);
        } else {
            proof {
                lemma_atom_advances(p@, k as int);
            }
            match parse_atom(p, k) {
                Err(e) => {
                    return Err(e);
                },
                Ok((a, j)) => {
                    let ghost before = atoms_view(cur@);
                    let ghost av = a@;
                    cur.push(a);
                    proof {
                        assert(atoms_view(cur@) =~= before.push(av));
                    }
                    k = j;
                },
            }
        }
    }
}

impl Glob {
    /// Compiles `pattern`, or says why it is malformed.
    pub fn new(pattern: &str) -> (res: Result<Glob, GlobError>)
        ensures
            match res {
                Ok(g) => parse_glob(pattern@) == Ok::<Seq<GlobPiece>, GlobError>(g@),
                Err(e) => parse_glob(pattern@) == Err::<Seq<GlobPiece>, GlobError>(e),
            },
    {
        let cs = chars_of(pattern);
        let p = cs.as_slice();
        let n = p.len();
        let ghost target = parse_glob(pattern@);
        let mut pieces: Vec<Piece> = Vec::new();
        let mut k: usize = 0;
        proof {
            assert(pieces_view(pieces@) =~= Seq::<GlobPiece>::empty());
        }
        loop
            invariant
                n == p@.len(),
                p@ == pattern@,
                k <= n,
                pieces_from(p@, k as int, pieces_view(pieces@)) == target,
                target == parse_glob(pattern@),
            decreases n - k,
        {
            if k >= n {
                return Ok(Glob { pieces });
            }
            let c = p[k];
            let ghost before = pieces_view(pieces@);
            if c == '{' {
                proof {
                    lemma_alts_advance(p@, k + 1, Seq::empty(), Seq::empty());
                }
                match parse_alternates(p, k + 1) {
                    Err(e) => {
                        return Err(e);
                    },
                    Ok((alts, j)) => {
                        let ghost pv = GlobPiece::Alternates(alts_view(alts@));
                        pieces.push(Piece::Alternates(alts));
                        proof {
                            assert(pieces_view(pieces@) =~= before.push(pv));
                        }
                        k = j;
                    },
                }
            } else if c == '}' {
                return Err(GlobError::UnopenedAlternates);
            } else {
                proof {
                    lemma_atom_advances(p@, k as int);
                }
                match parse_atom(p, k) {
                    Err(e) => {
                        return Err(e);
                    },
                    Ok((a, j)) => {
                        let ghost pv = GlobPiece::One(a@);
                        pieces.push(Piece::One(a));
                        proof {
                            assert(pieces_view(pieces@) =~= before.push(pv));
                        }
                        k = j;
                    },
                }
            }
        }
    }
}

// ---------------------------------------------------------------------------
// Matching
// ---------------------------------------------------------------------------

/// Whether an atom that matches one character accepts `c`.
pub open spec fn accepts(a: GlobAtom, c: char) -> bool {
    match a {
        GlobAtom::Char(x) => x == c,
        GlobAtom::Any => true,
        GlobAtom::Class(negated, ranges) => class_has(negated, ranges, c),
        GlobAtom::Star => true,
    }
}

/// Whether `c` belongs to the class.
fn class_contains(negated: bool, ranges: &Vec<(char, char)>, c: char) -> (res: bool)
    ensures
        res == class_has(negated, ranges@, c),
{
    let mut k: usize = 0;
    while k < ranges.len()
        invariant
            k <= ranges@.len(),
            forall|q: int|
                0 <= q < k ==> !((ranges@[q].0 as int) <= (c as int) && (c as int) <= (
                #[trigger] ranges@[q]).1 as int),
        decreases ranges@.len() - k,
    {
        let (lo, hi) = ranges[k];
        if lo <= c && c <= hi {
            proof {
                assert(ranges@[k as int] == (lo, hi));
            }
            return !negated;
        }
        k = k + 1;
    }
    negated
}

/// Whether an atom that matches one character accepts `c`.
fn atom_accepts(a: &Atom, c: char) -> (res: bool)
    ensures
        res == accepts(a@, c),
{
    match a {
        Atom::Char(x) => *x == c,
        Atom::Any => true,
        Atom::Star => true,
        Atom::Class { negated, ranges } => class_contains(*negated, ranges, c),
    }
}

/// The positions reached by `a` from those marked in `reach`.
fn step_atom(a: &Atom, t: &[char], reach: &Vec<bool>) -> (next: Vec<bool>)
    requires
        reach@.len() == t@.len() + 1,
    ensures
        next@.len() == reach@.len(),
        forall|l: int| 0 <= l <= t@.len() ==> #[trigger] next@[l] == after_atom(a@, t@, reach@, l),
{
    let m = t.len();
    let mut next: Vec<bool> = Vec::new();
    match a {
        Atom::Star => {
            let mut seen = reach[0];
            next.push(seen);
            proof {
                if reach@[0] {
                    assert(atom_matches(a@, t@, 0, 0));
                }
                if after_atom(a@, t@, reach@, 0) {
                    let j = choose|j: int|
                        0 <= j <= t@.len() && reach@[j] && #[trigger] atom_matches(a@, t@, j, 0);
                    assert(j == 0);
                }
                assert(next@[0] == after_atom(a@, t@, reach@, 0));
            }
            let mut l: usize = 0;
            while l < m
                invariant
                    m == t@.len(),
                    reach@.len() == m + 1,
                    a@ == GlobAtom::Star,
                    l <= m,
                    next@.len() == l + 1,
                    seen == exists|j: int| 0 <= j <= l && #[trigger] reach@[j],
                    forall|q: int| 0 <= q <= l ==> #[trigger] next@[q] == after_atom(a@, t@, reach@, q),
                decreases m - l,
            {
                proof {
                    if seen {
                        let j = choose|j: int| 0 <= j <= l && #[trigger] reach@[j];
                        assert(atom_matches(a@, t@, j, l + 1));
                    }
                    if reach@[l + 1] {
                        assert(atom_matches(a@, t@, l + 1, l + 1));
                    }
                }
                seen = seen || reach[l + 1];
                next.push(seen);
                l = l + 1;
                proof {
                    assert(next@[l as int] == seen);
                    if after_atom(a@, t@, reach@, l as int) {
                        let j = choose|j: int|
                            0 <= j <= t@.len() && reach@[j] && #[trigger] atom_matches(
                                a@,
                                t@,
                                j,
                                l as int,
                            );
                        assert(reach@[j]);
                    }
                }
            }
            proof {
                assert(forall|q: int| 0 <= q <= m ==> #[trigger] next@[q] == after_atom(
                    a@,
                    t@,
                    reach@,
                    q,
                ));
            }
            next
        },
        _ => {
            next.push(false);
            proof {
                if after_atom(a@, t@, reach@, 0) {
                    let j = choose|j: int|
                        0 <= j <= t@.len() && reach@[j] && #[trigger] atom_matches(a@, t@, j, 0);
                    assert(false);
                }
            }
            let mut l: usize = 0;
            while l < m
                invariant
                    m == t@.len(),
                    reach@.len() == m + 1,
                    a@ != GlobAtom::Star,
                    l <= m,
                    next@.len() == l + 1,
                    forall|q: int| 0 <= q <= l ==> #[trigger] next@[q] == after_atom(a@, t@, reach@, q),
                decreases m - l,
            {
                let ok = reach[l] && atom_accepts(a, t[l]);
                proof {
                    if ok {
                        assert(atom_matches(a@, t@, l as int, l + 1));
                    }
                    if after_atom(a@, t@, reach@, l + 1) {
                        let j = choose|j: int|
                            0 <= j <= t@.len() && reach@[j] && #[trigger] atom_matches(
                                a@,
                                t@,
                                j,
                                l + 1,
                            );
                        assert(j == l);
                    }
                }
                next.push(ok);
                l = l + 1;
            }
            next
        },
    }
}

/// Copies a vector of flags.
fn copy_flags(v: &Vec<bool>) -> (r: Vec<bool>)
    ensures
        r@ == v@,
{
    let mut r: Vec<bool> = Vec::new();
    let mut q: usize = 0;
    while q < v.len()
        invariant
            q <= v@.len(),
            r@ == v@.take(q as int),
        decreases v@.len() - q,
    {
        r.push(v[q]);
        q = q + 1;
        proof {
            assert(r@ =~= v@.take(q as int));
        }
    }
    proof {
        assert(v@.take(v@.len() as int) =~= v@);
    }
    r
}

/// The positions reached by the atoms, in order, from those marked in `reach`.
fn step_atoms(atoms: &Vec<Atom>, t: &[char], reach: &Vec<bool>) -> (next: Vec<bool>)
    requires
        reach@.len() == t@.len() + 1,
    ensures
        next@ == atoms_reach(atoms_view(atoms@), t@, reach@),
{
    let ghost av = atoms_view(atoms@);
    let mut cur = copy_flags(reach);
    proof {
        assert(av.take(0) =~= Seq::<GlobAtom>::empty());
    }
    let mut i: usize = 0;
    while i < atoms.len()
        invariant
            i <= atoms@.len(),
            av == atoms_view(atoms@),
            reach@.len() == t@.len() + 1,
            cur@.len() == t@.len() + 1,
            cur@ == atoms_reach(av.take(i as int), t@, reach@),
        decreases atoms@.len() - i,
    {
        let next = step_atom(&atoms[i], t, &cur);
        proof {
            let s = av.take(i + 1);
            assert(s.drop_last() =~= av.take(i as int));
            assert(s.last() == atoms@[i as int]@);
            assert(next@ =~= atom_reach(atoms@[i as int]@, t@, cur@));
        }
        cur = next;
        i = i + 1;
    }
    proof {
        assert(av.take(atoms@.len() as int) =~= av);
    }
    cur
}

/// The positions reached by the piece from those marked in `reach`.
fn step_piece(pc: &Piece, t: &[char], reach: &Vec<bool>) -> (next: Vec<bool>)
    requires
        reach@.len() == t@.len() + 1,
    ensures
        next@ == piece_reach(pc@, t@, reach@),
{
    match pc {
        Piece::One(a) => {
            let next = step_atom(a, t, reach);
            proof {
                assert(next@ =~= atom_reach(a@, t@, reach@));
            }
            next
        },
        Piece::Alternates(alts) => {
            let ghost avs = alts_view(alts@);
            let m = t.len();
            let mut next: Vec<bool> = Vec::new();
            next.push(false);
            let mut q: usize = 0;
            while q < m
                invariant
                    q <= m,
                    m == t@.len(),
                    next@.len() == q + 1,
                    forall|r: int| 0 <= r <= q ==> !#[trigger] next@[r],
                decreases m - q,
            {
                next.push(false);
                q = q + 1;
            }
            let mut x: usize = 0;
            while x < alts.len()
                invariant
                    x <= alts@.len(),
                    m == t@.len(),
                    reach@.len() == m + 1,
                    avs == alts_view(alts@),
                    avs.len() == alts@.len(),
                    next@.len() == m + 1,
                    forall|l: int|
                        0 <= l <= m ==> #[trigger] next@[l] == exists|y: int|
                            0 <= y < x && #[trigger] atoms_reach(avs[y], t@, reach@)[l],
                decreases alts@.len() - x,
            {
                let here = step_atoms(&alts[x], t, reach);
                proof {
                    assert(atoms_view(alts@[x as int]@) == avs[x as int]);
                    lemma_atoms_reach_len(avs[x as int], t@, reach@);
                }
                let ghost old_next = next@;
                let mut l: usize = 0;
                while l < m
                    invariant
                        l <= m,
                        m == t@.len(),
                        next@.len() == m + 1,
                        old_next.len() == m + 1,
                        here@.len() == m + 1,
                        forall|r: int| 0 <= r < l ==> #[trigger] next@[r] == (old_next[r] || here@[r]),
                        forall|r: int| l <= r <= m ==> #[trigger] next@[r] == old_next[r],
                    decreases m - l,
                {
                    let v = next[l] || here[l];
                    next.set(l, v);
                    l = l + 1;
                }
                let v = next[m] || here[m];
                next.set(m, v);
                proof {
                    assert forall|r: int| 0 <= r <= m implies #[trigger] next@[r] == exists|y: int|
                        0 <= y < x + 1 && #[trigger] atoms_reach(avs[y], t@, reach@)[r] by {
                        if old_next[r] {
                            let y = choose|y: int|
                                0 <= y < x && #[trigger] atoms_reach(avs[y], t@, reach@)[r];
                            assert(0 <= y < x + 1);
                        }
                        assert(here@[r] == atoms_reach(avs[x as int], t@, reach@)[r]);
                        assert(next@[r] == (old_next[r] || here@[r]));
                        if here@[r] {
                            assert(atoms_reach(avs[x as int], t@, reach@)[r]);
                        }
                        if exists|y: int| 0 <= y < x + 1 && #[trigger] atoms_reach(avs[y], t@, reach@)[r] {
                            let y = choose|y: int|
                                0 <= y < x + 1 && #[trigger] atoms_reach(avs[y], t@, reach@)[r];
                            if y < x {
                                assert(old_next[r]);
                            }
                        }
                    }
                }
                x = x + 1;
            }
            proof {
                assert(next@ =~= piece_reach(pc@, t@, reach@));
            }
            next
        },
    }
}

proof fn lemma_piece_reach_len(pc: GlobPiece, t: Seq<char>, reach: Seq<bool>)
    ensures
        piece_reach(pc, t, reach).len() == t.len() + 1,
{
}

proof fn lemma_atoms_reach_len(atoms: Seq<GlobAtom>, t: Seq<char>, reach: Seq<bool>)
    requires
        reach.len() == t.len() + 1,
    ensures
        atoms_reach(atoms, t, reach).len() == t.len() + 1,
    decreases atoms.len(),
{
    if atoms.len() > 0 {
        lemma_atoms_reach_len(atoms.drop_last(), t, reach);
    }
}

impl Glob {
    /// Whether this glob matches the whole of the text `t`.
    pub fn matches_chars(&self, t: &[char]) -> (res: bool)
        ensures
            res == pieces_reach(self@, t@)[t@.len() as int],
    {
        let ghost pv = self@;
        let m = t.len();
        let mut cur: Vec<bool> = Vec::new();
        cur.push(true);
        let mut q: usize = 0;
        while q < m
            invariant
                q <= m,
                m == t@.len(),
                cur@.len() == q + 1,
                cur@[0],
                forall|r: int| 1 <= r <= q ==> !#[trigger] cur@[r],
            decreases m - q,
        {
            cur.push(false);
            q = q + 1;
        }
        proof {
            assert(pv.take(0) =~= Seq::<GlobPiece>::empty());
            assert(cur@ =~= pieces_reach(pv.take(0), t@));
        }
        let mut i: usize = 0;
        while i < self.pieces.len()
            invariant
                i <= self.pieces@.len(),
                pv == self@,
                m == t@.len(),
                cur@.len() == m + 1,
                cur@ == pieces_reach(pv.take(i as int), t@),
            decreases self.pieces@.len() - i,
        {
            let next = step_piece(&self.pieces[i], t, &cur);
            proof {
                let s = pv.take(i + 1);
                assert(s.drop_last() =~= pv.take(i as int));
                assert(s.last() == self.pieces@[i as int]@);
                lemma_piece_reach_len(s.last(), t@, cur@);
            }
            cur = next;
            i = i + 1;
        }
        proof {
            assert(pv.take(self.pieces@.len() as int) =~= pv);
        }
        cur[m]
    }

    /// Whether this glob matches the whole of `text`.
    pub fn is_match(&self, text: &str) -> (res: bool)
        ensures
            res == pieces_reach(self@, text@)[text@.len() as int],
    {
        let t = chars_of(text);
        self.matches_chars(t.as_slice())
    }
}

/// Returns true if `text` matches the glob `pattern`; a malformed pattern matches nothing.
pub fn glob_match(pattern: &str, text: &str) -> (res: bool)
    ensures
        res == glob_matches(pattern@, text@),
{
    match Glob::new(pattern) {
        Ok(g) => g.is_match(text),
        Err(_) => false,
    }
}

// ---------------------------------------------------------------------------
// Laws
// ---------------------------------------------------------------------------

/// Whether `c` has a meaning of its own in a pattern.
pub open spec fn is_special(c: char) -> bool {
    c == '*' || c == '?' || c == '[' || c == ']' || c == '{' || c == '}' || c == ',' || c == '\\'
        || c == '!' || c == '^' || c == '-'
}

/// The pattern of one atom matches exactly where that atom matches the whole text.
proof fn lemma_single_atom(p: Seq<char>, a: GlobAtom, t: Seq<char>)
    requires
        parse_glob(p) == Ok::<Seq<GlobPiece>, GlobError>(seq![GlobPiece::One(a)]),
    ensures
        glob_matches(p, t) == atom_matches(a, t, 0, t.len() as int),
{
    let ps = seq![GlobPiece::One(a)];
    assert(ps.drop_last() =~= Seq::<GlobPiece>::empty());
    let st = start_flags(t);
    assert(ps.last() == GlobPiece::One(a));
    assert(pieces_reach(ps.drop_last(), t) == st);
    assert(pieces_reach(ps, t) == atom_reach(a, t, st));
    if atom_matches(a, t, 0, t.len() as int) {
        assert(st[0]);
    }
    if after_atom(a, t, st, t.len() as int) {
        let j = choose|j: int| 0 <= j <= t.len() && st[j] && #[trigger] atom_matches(a, t, j, t.len() as int);
        assert(j == 0);
    }
}

/// A lone `*` matches every text, including the empty one and text with spaces and `/`.
pub proof fn lemma_star_matches_anything(text: Seq<char>)
    ensures
        glob_matches(seq!['*'], text),
{
    let p = seq!['*'];
    assert(p[0] == '*');
    assert(atom_at(p, 0) == Ok::<(GlobAtom, int), GlobError>((GlobAtom::Star, 1)));
    assert(pieces_from(p, 1, seq![GlobPiece::One(GlobAtom::Star)]) == Ok::<Seq<GlobPiece>, GlobError>(
        seq![GlobPiece::One(GlobAtom::Star)],
    ));
    assert(seq![GlobPiece::One(GlobAtom::Star)] =~= Seq::<GlobPiece>::empty().push(
        GlobPiece::One(GlobAtom::Star),
    ));
    lemma_single_atom(p, GlobAtom::Star, text);
}

/// A lone `?` matches exactly the texts of one character.
pub proof fn lemma_question_mark_matches_one(text: Seq<char>)
    ensures
        glob_matches(seq!['?'], text) <==> text.len() == 1,
{
    let p = seq!['?'];
    assert(p[0] == '?');
    assert(atom_at(p, 0) == Ok::<(GlobAtom, int), GlobError>((GlobAtom::Any, 1)));
    assert(seq![GlobPiece::One(GlobAtom::Any)] =~= Seq::<GlobPiece>::empty().push(
        GlobPiece::One(GlobAtom::Any),
    ));
    assert(pieces_from(p, 1, seq![GlobPiece::One(GlobAtom::Any)]) == Ok::<Seq<GlobPiece>, GlobError>(
        seq![GlobPiece::One(GlobAtom::Any)],
    ));
    lemma_single_atom(p, GlobAtom::Any, text);
}

/// The empty pattern matches only the empty text.
pub proof fn lemma_empty_pattern(text: Seq<char>)
    ensures
        glob_matches(Seq::<char>::empty(), text) <==> text.len() == 0,
{
    assert(pieces_reach(Seq::<GlobPiece>::empty(), text) == start_flags(text));
}

/// A character without a meaning of its own matches exactly itself, case-sensitively.
pub proof fn lemma_plain_char(c: char, text: Seq<char>)
    requires
        !is_special(c),
    ensures
        glob_matches(seq![c], text) <==> text == seq![c],
{
    let p = seq![c];
    assert(p[0] == c);
    assert(atom_at(p, 0) == Ok::<(GlobAtom, int), GlobError>((GlobAtom::Char(c), 1)));
    assert(seq![GlobPiece::One(GlobAtom::Char(c))] =~= Seq::<GlobPiece>::empty().push(
        GlobPiece::One(GlobAtom::Char(c)),
    ));
    assert(pieces_from(p, 1, seq![GlobPiece::One(GlobAtom::Char(c))]) == Ok::<
        Seq<GlobPiece>,
        GlobError,
    >(seq![GlobPiece::One(GlobAtom::Char(c))]));
    lemma_single_atom(p, GlobAtom::Char(c), text);
    if text.len() == 1 && text[0] == c {
        assert(text =~= seq![c]);
    }
}

/// An escaped character matches exactly itself, whatever it is.
pub proof fn lemma_escape(c: char, text: Seq<char>)
    ensures
        glob_matches(seq!['\\', c], text) <==> text == seq![c],
{
    let p = seq!['\\', c];
    assert(p[0] == '\\' && p[1] == c);
    assert(atom_at(p, 0) == Ok::<(GlobAtom, int), GlobError>((GlobAtom::Char(c), 2)));
    assert(seq![GlobPiece::One(GlobAtom::Char(c))] =~= Seq::<GlobPiece>::empty().push(
        GlobPiece::One(GlobAtom::Char(c)),
    ));
    assert(pieces_from(p, 2, seq![GlobPiece::One(GlobAtom::Char(c))]) == Ok::<
        Seq<GlobPiece>,
        GlobError,
    >(seq![GlobPiece::One(GlobAtom::Char(c))]));
    lemma_single_atom(p, GlobAtom::Char(c), text);
    if text.len() == 1 && text[0] == c {
        assert(text =~= seq![c]);
    }
}

/// A trailing `\` makes the pattern malformed.
pub proof fn lemma_dangling_escape(p: Seq<char>)
    requires
        parse_glob(p) is Ok,
    ensures
        parse_glob(p.push('\\')) == Err::<Seq<GlobPiece>, GlobError>(GlobError::DanglingEscape),
{
    let q = p.push('\\');
    lemma_pieces_embed(p, q, 0, 0, Seq::empty());
    assert(q[p.len() as int] == '\\');
    assert(atom_at(q, p.len() as int) == Err::<(GlobAtom, int), GlobError>(
        GlobError::DanglingEscape,
    ));
}

/// `p` occurs in `q` from position `d` on.
pub open spec fn embedded(p: Seq<char>, q: Seq<char>, d: int) -> bool {
    &&& 0 <= d
    &&& d + p.len() <= q.len()
    &&& forall|k: int| 0 <= k < p.len() ==> #[trigger] q[d + k] == p[k]
}

/// A class body read inside `p` is read the same inside a pattern holding `p`.
proof fn lemma_class_embed(
    p: Seq<char>,
    q: Seq<char>,
    d: int,
    i: int,
    ranges: Seq<(char, char)>,
    first: bool,
    in_range: bool,
)
    requires
        embedded(p, q, d),
        0 <= i,
        class_from(p, i, ranges, first, in_range) is Ok,
    ensures
        class_from(q, d + i, ranges, first, in_range) == Ok::<(Seq<(char, char)>, int), GlobError>(
            (
                class_from(p, i, ranges, first, in_range)->Ok_0.0,
                d + class_from(p, i, ranges, first, in_range)->Ok_0.1,
            ),
        ),
    decreases p.len() - i,
{
    if i < p.len() {
        assert(q[d + i] == p[i]);
        if p[i] == ']' && !first {
        } else if p[i] == ']' || (p[i] == '-' && first) {
            lemma_class_embed(p, q, d, i + 1, ranges.push((p[i], p[i])), false, false);
        } else if p[i] == '-' && !in_range {
            lemma_class_embed(p, q, d, i + 1, ranges, false, true);
        } else if in_range {
            lemma_class_embed(
                p,
                q,
                d,
                i + 1,
                ranges.drop_last().push((ranges.last().0, p[i])),
                false,
                false,
            );
        } else {
            lemma_class_embed(p, q, d, i + 1, ranges.push((p[i], p[i])), false, false);
        }
    }
}

/// An atom read inside `p` is read the same inside a pattern holding `p`.
proof fn lemma_atom_embed(p: Seq<char>, q: Seq<char>, d: int, i: int)
    requires
        embedded(p, q, d),
        0 <= i < p.len(),
        atom_at(p, i) is Ok,
    ensures
        atom_at(q, d + i) == Ok::<(GlobAtom, int), GlobError>(
            (atom_at(p, i)->Ok_0.0, d + atom_at(p, i)->Ok_0.1),
        ),
{
    assert(q[d + i] == p[i]);
    if p[i] == '[' {
        if i + 1 < p.len() {
            assert(q[d + (i + 1)] == p[i + 1]);
        }
        let neg = i + 1 < p.len() && (p[i + 1] == '!' || p[i + 1] == '^');
        let start = if neg {
            i + 2
        } else {
            i + 1
        };
        lemma_class_embed(p, q, d, start, Seq::empty(), true, false);
    } else if p[i] == '\\' {
        assert(q[d + (i + 1)] == p[i + 1]);
    }
}

/// A brace group read inside `p` is read the same inside a pattern holding `p`.
proof fn lemma_alts_embed(
    p: Seq<char>,
    q: Seq<char>,
    d: int,
    i: int,
    alts: Seq<Seq<GlobAtom>>,
    cur: Seq<GlobAtom>,
)
    requires
        embedded(p, q, d),
        0 <= i,
        alts_from(p, i, alts, cur) is Ok,
    ensures
        alts_from(q, d + i, alts, cur) == Ok::<(Seq<Seq<GlobAtom>>, int), GlobError>(
            (alts_from(p, i, alts, cur)->Ok_0.0, d + alts_from(p, i, alts, cur)->Ok_0.1),
        ),
    decreases p.len() - i,
{
    if i < p.len() {
        assert(q[d + i] == p[i]);
        if p[i] == ',' {
            lemma_alts_embed(p, q, d, i + 1, alts.push(cur), Seq::empty());
        } else if p[i] != '}' && p[i] != '{' {
            lemma_atom_embed(p, q, d, i);
            lemma_atom_advances(p, i);
            let (a, j) = atom_at(p, i)->Ok_0;
            lemma_alts_embed(p, q, d, j, alts, cur.push(a));
        }
    }
}

/// Reading a pattern that holds `p` from `d` on goes, up to the end of `p`,
/// as reading `p`.
proof fn lemma_pieces_embed(p: Seq<char>, q: Seq<char>, d: int, i: int, acc: Seq<GlobPiece>)
    requires
        embedded(p, q, d),
        0 <= i <= p.len(),
        pieces_from(p, i, acc) is Ok,
    ensures
        pieces_from(q, d + i, acc) == pieces_from(q, d + p.len(), pieces_from(p, i, acc)->Ok_0),
    decreases p.len() - i,
{
    if i < p.len() {
        assert(q[d + i] == p[i]);
        if p[i] == '{' {
            lemma_alts_embed(p, q, d, i + 1, Seq::empty(), Seq::empty());
            lemma_alts_advance(p, i + 1, Seq::empty(), Seq::empty());
            let (alts, j) = alts_from(p, i + 1, Seq::empty(), Seq::empty())->Ok_0;
            lemma_pieces_embed(p, q, d, j, acc.push(GlobPiece::Alternates(alts)));
        } else {
            lemma_atom_embed(p, q, d, i);
            lemma_atom_advances(p, i);
            let (a, j) = atom_at(p, i)->Ok_0;
            lemma_pieces_embed(p, q, d, j, acc.push(GlobPiece::One(a)));
        }
    }
}

/// The pieces read after others are the same whatever came before.
proof fn lemma_pieces_acc(p: Seq<char>, i: int, acc: Seq<GlobPiece>)
    requires
        0 <= i <= p.len(),
    ensures
        pieces_from(p, i, acc) == (match pieces_from(p, i, Seq::empty()) {
            Ok(r) => Ok::<Seq<GlobPiece>, GlobError>(acc + r),
            Err(e) => Err(e),
        }),
    decreases p.len() - i,
{
    if i == p.len() {
        assert(acc + Seq::<GlobPiece>::empty() =~= acc);
    } else if p[i] == '{' {
        lemma_alts_advance(p, i + 1, Seq::empty(), Seq::empty());
        if let Ok((alts, j)) = alts_from(p, i + 1, Seq::empty(), Seq::empty()) {
            let x = GlobPiece::Alternates(alts);
            lemma_pieces_acc(p, j, acc.push(x));
            lemma_pieces_acc(p, j, seq![x]);
            assert(Seq::<GlobPiece>::empty().push(x) =~= seq![x]);
            if let Ok(r) = pieces_from(p, j, Seq::empty()) {
                assert(acc.push(x) + r =~= acc + (seq![x] + r));
            }
        }
    } else if p[i] != '}' {
        lemma_atom_advances(p, i);
        if let Ok((a, j)) = atom_at(p, i) {
            let x = GlobPiece::One(a);
            lemma_pieces_acc(p, j, acc.push(x));
            lemma_pieces_acc(p, j, seq![x]);
            assert(Seq::<GlobPiece>::empty().push(x) =~= seq![x]);
            if let Ok(r) = pieces_from(p, j, Seq::empty()) {
                assert(acc.push(x) + r =~= acc + (seq![x] + r));
            }
        }
    }
}

/// `n` star pieces.
pub open spec fn star_pieces(n: nat) -> Seq<GlobPiece> {
    Seq::new(n, |k: int| GlobPiece::One(GlobAtom::Star))
}

/// A run of `n` stars from `i` on reads as `n` star pieces.
proof fn lemma_stars_read(q: Seq<char>, i: int, n: int, acc: Seq<GlobPiece>)
    requires
        0 <= i,
        0 <= n,
        i + n <= q.len(),
        forall|k: int| i <= k < i + n ==> q[k] == '*',
    ensures
        pieces_from(q, i, acc) == pieces_from(q, i + n, acc + star_pieces(n as nat)),
    decreases n,
{
    if n == 0 {
        assert(acc + star_pieces(0) =~= acc);
    } else {
        assert(q[i] == '*');
        assert(atom_at(q, i) == Ok::<(GlobAtom, int), GlobError>((GlobAtom::Star, i + 1)));
        lemma_stars_read(q, i + 1, n - 1, acc.push(GlobPiece::One(GlobAtom::Star)));
        assert(acc.push(GlobPiece::One(GlobAtom::Star)) + star_pieces((n - 1) as nat) =~= acc
            + star_pieces(n as nat));
    }
}

/// A pattern `p`, then the stars `stars`, then a pattern `s`, reads as the
/// pieces of `p`, one star piece per star, and the pieces of `s`.
proof fn lemma_parse_around_stars(p: Seq<char>, stars: Seq<char>, s: Seq<char>)
    requires
        parse_glob(p) is Ok,
        parse_glob(s) is Ok,
        forall|k: int| 0 <= k < stars.len() ==> stars[k] == '*',
    ensures
        parse_glob(p + stars + s) == Ok::<Seq<GlobPiece>, GlobError>(
            parse_glob(p)->Ok_0 + star_pieces(stars.len()) + parse_glob(s)->Ok_0,
        ),
{
    let q = p + stars + s;
    let pp = parse_glob(p)->Ok_0;
    let ss = parse_glob(s)->Ok_0;
    let m = stars.len() as int;
    let d = p.len() + m;
    assert(embedded(p, q, 0)) by {
        assert forall|k: int| 0 <= k < p.len() implies #[trigger] q[0 + k] == p[k] by {
            assert(q[k] == (p + stars)[k]);
        }
    }
    lemma_pieces_embed(p, q, 0, 0, Seq::empty());
    lemma_stars_read(q, p.len() as int, m, pp);
    assert(embedded(s, q, d)) by {
        assert forall|k: int| 0 <= k < s.len() implies #[trigger] q[d + k] == s[k] by {}
    }
    lemma_pieces_acc(s, 0, pp + star_pieces(m as nat));
    lemma_pieces_embed(s, q, d, 0, pp + star_pieces(m as nat));
    assert(pieces_from(q, d + s.len(), pp + star_pieces(m as nat) + ss) == Ok::<
        Seq<GlobPiece>,
        GlobError,
    >(pp + star_pieces(m as nat) + ss));
}

/// Two pieces lists that reach the same positions still do after the same pieces.
proof fn lemma_reach_then(x: Seq<GlobPiece>, y: Seq<GlobPiece>, b: Seq<GlobPiece>, t: Seq<char>)
    requires
        pieces_reach(x, t) == pieces_reach(y, t),
    ensures
        pieces_reach(x + b, t) == pieces_reach(y + b, t),
    decreases b.len(),
{
    if b.len() == 0 {
        assert(x + b =~= x);
        assert(y + b =~= y);
    } else {
        lemma_reach_then(x, y, b.drop_last(), t);
        assert((x + b).drop_last() =~= x + b.drop_last());
        assert((y + b).drop_last() =~= y + b.drop_last());
    }
}

/// A second star right after a star reaches nothing new.
proof fn lemma_star_twice(a: Seq<GlobPiece>, t: Seq<char>)
    ensures
        pieces_reach(a.push(GlobPiece::One(GlobAtom::Star)).push(GlobPiece::One(GlobAtom::Star)), t)
            == pieces_reach(a.push(GlobPiece::One(GlobAtom::Star)), t),
{
    let st = GlobPiece::One(GlobAtom::Star);
    let a1 = a.push(st);
    let a2 = a1.push(st);
    assert(a1.drop_last() =~= a);
    assert(a2.drop_last() =~= a1);
    let r = pieces_reach(a, t);
    let r1 = atom_reach(GlobAtom::Star, t, r);
    let r2 = atom_reach(GlobAtom::Star, t, r1);
    assert forall|l: int| 0 <= l <= t.len() implies #[trigger] r2[l] == r1[l] by {
        if r2[l] {
            let j = choose|j: int|
                0 <= j <= t.len() && r1[j] && #[trigger] atom_matches(GlobAtom::Star, t, j, l);
            let j0 = choose|j0: int|
                0 <= j0 <= t.len() && r[j0] && #[trigger] atom_matches(GlobAtom::Star, t, j0, j);
            assert(atom_matches(GlobAtom::Star, t, j0, l));
        }
        if r1[l] {
            assert(atom_matches(GlobAtom::Star, t, l, l));
        }
    }
    assert(r2 =~= r1);
}

/// `**` is the same as `*`: between two patterns, a doubled star matches
/// exactly what a single star matches, as `*` already crosses `/`.
pub proof fn lemma_double_star(p: Seq<char>, s: Seq<char>, text: Seq<char>)
    requires
        parse_glob(p) is Ok,
        parse_glob(s) is Ok,
    ensures
        glob_matches(p + seq!['*', '*'] + s, text) == glob_matches(p + seq!['*'] + s, text),
{
    let st = GlobPiece::One(GlobAtom::Star);
    let pp = parse_glob(p)->Ok_0;
    let ss = parse_glob(s)->Ok_0;
    lemma_parse_around_stars(p, seq!['*', '*'], s);
    lemma_parse_around_stars(p, seq!['*'], s);
    assert(star_pieces(2) =~= seq![st, st]);
    assert(star_pieces(1) =~= seq![st]);
    assert(pp + seq![st, st] =~= pp.push(st).push(st));
    assert(pp + seq![st] =~= pp.push(st));
    lemma_star_twice(pp, text);
    lemma_reach_then(pp.push(st).push(st), pp.push(st), ss, text);
}

/// A class `[lo-hi]` of plain characters matches exactly one character in the range.
pub proof fn lemma_class_range(lo: char, hi: char, text: Seq<char>)
    requires
        !is_special(lo),
        !is_special(hi),
        (lo as int) <= (hi as int),
    ensures
        glob_matches(seq!['[', lo, '-', hi, ']'], text) <==> (text.len() == 1 && (lo as int) <= (
        text[0] as int) <= (hi as int)),
{
    let p = seq!['[', lo, '-', hi, ']'];
    assert(p[0] == '[' && p[1] == lo && p[2] == '-' && p[3] == hi && p[4] == ']');
    let r1 = Seq::<(char, char)>::empty().push((lo, lo));
    assert(class_from(p, 4, r1.drop_last().push((lo, hi)), false, false) == Ok::<
        (Seq<(char, char)>, int),
        GlobError,
    >((r1.drop_last().push((lo, hi)), 5)));
    assert(class_from(p, 3, r1, false, true) == class_from(p, 4, r1.drop_last().push((lo, hi)), false, false));
    assert(class_from(p, 2, r1, false, false) == class_from(p, 3, r1, false, true));
    assert(class_from(p, 1, Seq::empty(), true, false) == class_from(p, 2, r1, false, false));
    let ranges = r1.drop_last().push((lo, hi));
    let a = GlobAtom::Class(false, ranges);
    assert(atom_at(p, 0) == Ok::<(GlobAtom, int), GlobError>((a, 5)));
    assert(seq![GlobPiece::One(a)] =~= Seq::<GlobPiece>::empty().push(GlobPiece::One(a)));
    assert(pieces_from(p, 5, seq![GlobPiece::One(a)]) == Ok::<Seq<GlobPiece>, GlobError>(
        seq![GlobPiece::One(a)],
    ));
    lemma_single_atom(p, a, text);
    assert(ranges =~= seq![(lo, hi)]);
    if text.len() == 1 {
        if class_has(false, ranges, text[0]) {
            let k = choose|k: int|
                0 <= k < ranges.len() && (ranges[k].0 as int) <= (text[0] as int) && (
                text[0] as int) <= (#[trigger] ranges[k]).1 as int;
            assert(k == 0);
        }
        if (lo as int) <= (text[0] as int) <= (hi as int) {
            assert(ranges[0] == (lo, hi));
        }
    }
}

/// The body of a class listing the ranges `lo-hi`, one after another.
pub open spec fn ranges_text(rs: Seq<(char, char)>) -> Seq<char>
    decreases rs.len(),
{
    if rs.len() == 0 {
        Seq::empty()
    } else {
        ranges_text(rs.drop_last()) + range_text(rs.last())
    }
}

/// One range of a class body, `lo-hi`.
pub open spec fn range_text(r: (char, char)) -> Seq<char> {
    seq![r.0, '-', r.1]
}

proof fn lemma_range_text(r: (char, char))
    ensures
        range_text(r).len() == 3,
        range_text(r)[0] == r.0,
        range_text(r)[1] == '-',
        range_text(r)[2] == r.1,
{
}

/// The class pattern `[lo-hi...]`, or `[!lo-hi...]` when negated.
pub open spec fn class_pattern(negated: bool, rs: Seq<(char, char)>) -> Seq<char> {
    seq!['['] + (if negated {
        seq!['!']
    } else {
        Seq::empty()
    }) + ranges_text(rs) + seq![']']
}

/// Ranges of plain characters, each in order.
pub open spec fn plain_ranges(rs: Seq<(char, char)>) -> bool {
    forall|k: int|
        0 <= k < rs.len() ==> !is_special((#[trigger] rs[k]).0) && !is_special(rs[k].1) && (
        rs[k].0 as int) <= (rs[k].1 as int)
}

proof fn lemma_ranges_text(rs: Seq<(char, char)>)
    ensures
        ranges_text(rs).len() == 3 * rs.len(),
        forall|m: int| 0 <= m < rs.len() ==> #[trigger] ranges_text(rs)[3 * m] == rs[m].0,
        forall|m: int| 0 <= m < rs.len() ==> #[trigger] ranges_text(rs)[3 * m + 1] == '-',
        forall|m: int| 0 <= m < rs.len() ==> #[trigger] ranges_text(rs)[3 * m + 2] == rs[m].1,
    decreases rs.len(),
{
    if rs.len() > 0 {
        let d = rs.drop_last();
        lemma_ranges_text(d);
        lemma_range_text(rs.last());
        let e = range_text(rs.last());
        assert(ranges_text(rs) == ranges_text(d) + e);
        assert forall|m: int| 0 <= m < rs.len() implies #[trigger] ranges_text(rs)[3 * m]
            == rs[m].0 && ranges_text(rs)[3 * m + 1] == '-' && ranges_text(rs)[3 * m + 2]
            == rs[m].1 by {
            if m < d.len() {
                assert(d[m] == rs[m]);
                assert(ranges_text(d)[3 * m] == d[m].0);
                assert(ranges_text(d)[3 * m + 1] == '-');
                assert(ranges_text(d)[3 * m + 2] == d[m].1);
            } else {
                assert(rs.last() == rs[m]);
            }
        }
        assert forall|m: int| 0 <= m < rs.len() implies #[trigger] ranges_text(rs)[3 * m + 1]
            == '-' by {
            assert(ranges_text(rs)[3 * m] == rs[m].0);
        }
        assert forall|m: int| 0 <= m < rs.len() implies #[trigger] ranges_text(rs)[3 * m + 2]
            == rs[m].1 by {
            assert(ranges_text(rs)[3 * m] == rs[m].0);
        }
    }
}

/// Reading the ranges of a class body from the `k`-th range on.
proof fn lemma_read_ranges(q: Seq<char>, s: int, rs: Seq<(char, char)>, k: int)
    requires
        0 <= s,
        0 <= k <= rs.len(),
        rs.len() >= 1,
        plain_ranges(rs),
        s + 3 * rs.len() < q.len(),
        q[s + 3 * rs.len()] == ']',
        forall|m: int|
            0 <= m < rs.len() ==> {
                &&& #[trigger] q[s + 3 * m] == rs[m].0
                &&& q[s + 3 * m + 1] == '-'
                &&& q[s + 3 * m + 2] == rs[m].1
            },
    ensures
        class_from(q, s + 3 * k, rs.take(k), k == 0, false) == Ok::<
            (Seq<(char, char)>, int),
            GlobError,
        >((rs, s + 3 * rs.len() + 1)),
    decreases rs.len() - k,
{
    let n = rs.len() as int;
    if k == n {
        assert(rs.take(k) =~= rs);
    } else {
        let i = s + 3 * k;
        let lo = rs[k].0;
        let hi = rs[k].1;
        assert(q[i] == lo);
        assert(q[i + 1] == '-');
        assert(q[i + 2] == hi);
        assert(!is_special(lo) && !is_special(hi) && (lo as int) <= (hi as int));
        let r1 = rs.take(k).push((lo, lo));
        assert(r1.drop_last().push((lo, hi)) =~= rs.take(k + 1));
        assert(r1.last().0 == lo);
        lemma_read_ranges(q, s, rs, k + 1);
        assert(class_from(q, i + 2, r1, false, true) == class_from(
            q,
            i + 3,
            r1.drop_last().push((lo, hi)),
            false,
            false,
        ));
        assert(class_from(q, i + 1, r1, false, false) == class_from(q, i + 2, r1, false, true));
        assert(class_from(q, i, rs.take(k), k == 0, false) == class_from(
            q,
            i + 1,
            r1,
            false,
            false,
        ));
    }
}

/// A class matches one character exactly when some range listed in it holds
/// that character (for `[!...]`, when none does), for a class of any number of
/// ranges.
pub proof fn lemma_class_ranges(negated: bool, rs: Seq<(char, char)>, text: Seq<char>)
    requires
        rs.len() >= 1,
        plain_ranges(rs),
    ensures
        glob_matches(class_pattern(negated, rs), text) <==> (text.len() == 1 && (exists|k: int|
            0 <= k < rs.len() && (rs[k].0 as int) <= (text[0] as int) <= (#[trigger] rs[k].1 as int))
            != negated),
{
    let p = class_pattern(negated, rs);
    let s: int = if negated {
        2
    } else {
        1
    };
    let body = ranges_text(rs);
    lemma_ranges_text(rs);
    let n = rs.len() as int;
    assert(p.len() == s + 3 * n + 1);
    assert(p[0] == '[');
    assert(p[s + 3 * n] == ']');
    assert forall|m: int| 0 <= m < rs.len() implies {
        &&& #[trigger] p[s + 3 * m] == rs[m].0
        &&& p[s + 3 * m + 1] == '-'
        &&& p[s + 3 * m + 2] == rs[m].1
    } by {
        assert(p[s + 3 * m] == body[3 * m]);
        assert(p[s + 3 * m + 1] == body[3 * m + 1]);
        assert(p[s + 3 * m + 2] == body[3 * m + 2]);
    }
    lemma_read_ranges(p, s, rs, 0);
    assert(rs.take(0) =~= Seq::<(char, char)>::empty());
    if negated {
        assert(p[1] == '!');
    } else {
        assert(p[1] == rs[0].0);
    }
    let a = GlobAtom::Class(negated, rs);
    assert(class_at(p, 1) == Ok::<(GlobAtom, int), GlobError>((a, p.len() as int)));
    assert(atom_at(p, 0) == Ok::<(GlobAtom, int), GlobError>((a, p.len() as int)));
    assert(seq![GlobPiece::One(a)] =~= Seq::<GlobPiece>::empty().push(GlobPiece::One(a)));
    assert(pieces_from(p, p.len() as int, seq![GlobPiece::One(a)]) == Ok::<Seq<GlobPiece>, GlobError>(
        seq![GlobPiece::One(a)],
    ));
    lemma_single_atom(p, a, text);
}

/// The atoms of a word of plain characters.
pub open spec fn word_atoms(w: Seq<char>) -> Seq<GlobAtom>
    decreases w.len(),
{
    if w.len() == 0 {
        Seq::empty()
    } else {
        word_atoms(w.drop_last()).push(char_atom(w.last()))
    }
}

/// The atom matching the character `c` itself.
pub open spec fn char_atom(c: char) -> GlobAtom {
    GlobAtom::Char(c)
}

/// The atoms of each word.
pub open spec fn words_atoms(ws: Seq<Seq<char>>) -> Seq<Seq<GlobAtom>>
    decreases ws.len(),
{
    if ws.len() == 0 {
        Seq::empty()
    } else {
        words_atoms(ws.drop_last()).push(word_atoms(ws.last()))
    }
}

proof fn lemma_word_atoms(w: Seq<char>)
    ensures
        word_atoms(w).len() == w.len(),
        forall|m: int| 0 <= m < w.len() ==> #[trigger] word_atoms(w)[m] == char_atom(w[m]),
    decreases w.len(),
{
    if w.len() > 0 {
        lemma_word_atoms(w.drop_last());
        assert forall|m: int| 0 <= m < w.len() implies #[trigger] word_atoms(w)[m] == char_atom(
            w[m],
        ) by {
            if m < w.len() - 1 {
                assert(word_atoms(w.drop_last())[m] == char_atom(w.drop_last()[m]));
            }
        }
    }
}

proof fn lemma_words_atoms(ws: Seq<Seq<char>>)
    ensures
        words_atoms(ws).len() == ws.len(),
        forall|k: int| 0 <= k < ws.len() ==> #[trigger] words_atoms(ws)[k] == word_atoms(ws[k]),
    decreases ws.len(),
{
    if ws.len() > 0 {
        lemma_words_atoms(ws.drop_last());
        assert forall|k: int| 0 <= k < ws.len() implies #[trigger] words_atoms(ws)[k] == word_atoms(
            ws[k],
        ) by {
            if k < ws.len() - 1 {
                assert(words_atoms(ws.drop_last())[k] == word_atoms(ws.drop_last()[k]));
            }
        }
    }
}

/// Matched from the start of the text, a word of plain characters reaches
/// exactly the position after it, and only if the text begins with it.
proof fn lemma_word_reach(w: Seq<char>, t: Seq<char>)
    ensures
        forall|l: int|
            0 <= l <= t.len() ==> (#[trigger] atoms_reach(word_atoms(w), t, start_flags(t))[l] <==> (
            l == w.len() && t.take(l) == w)),
    decreases w.len(),
{
    let st = start_flags(t);
    if w.len() == 0 {
        assert forall|l: int| 0 <= l <= t.len() implies (#[trigger] atoms_reach(
            word_atoms(w),
            t,
            st,
        )[l] <==> (l == w.len() && t.take(l) == w)) by {
            if l == 0 {
                assert(t.take(0) =~= w);
            }
        }
    } else {
        let d = w.drop_last();
        let c = w.last();
        lemma_word_reach(d, t);
        assert(word_atoms(w).drop_last() =~= word_atoms(d));
        assert(word_atoms(w).last() == char_atom(c));
        let r0 = atoms_reach(word_atoms(d), t, st);
        assert(atoms_reach(word_atoms(w), t, st) == atom_reach(char_atom(c), t, r0));
        assert forall|l: int| 0 <= l <= t.len() implies (#[trigger] atoms_reach(
            word_atoms(w),
            t,
            st,
        )[l] <==> (l == w.len() && t.take(l) == w)) by {
            if after_atom(char_atom(c), t, r0, l) {
                let j = choose|j: int|
                    0 <= j <= t.len() && r0[j] && #[trigger] atom_matches(char_atom(c), t, j, l);
                assert(j == d.len() && t.take(j) == d);
                assert(t.take(l) =~= t.take(j).push(t[j]));
                assert(w =~= d.push(c));
            }
            if l == w.len() && t.take(l) == w {
                let j = l - 1;
                assert(t.take(j) =~= t.take(l).drop_last());
                assert(w.drop_last() == d);
                assert(r0[j]);
                assert(t[j] == t.take(l)[j]);
                assert(atom_matches(char_atom(c), t, j, l));
            }
        }
    }
}

/// The brace group `{w0,w1,...}` of the given words, without its closing `}`.
pub open spec fn alts_text(ws: Seq<Seq<char>>) -> Seq<char>
    decreases ws.len(),
{
    if ws.len() == 0 {
        seq!['{']
    } else if ws.len() == 1 {
        seq!['{'] + ws[0]
    } else {
        alts_text(ws.drop_last()) + seq![','] + ws.last()
    }
}

/// Words of plain characters.
pub open spec fn plain_words(ws: Seq<Seq<char>>) -> bool {
    forall|k: int, m: int| 0 <= k < ws.len() && 0 <= m < ws[k].len() ==> !is_special(#[trigger] ws[k][m])
}

/// Reading a word of plain characters inside a brace group.
proof fn lemma_read_word(
    q: Seq<char>,
    i: int,
    w: Seq<char>,
    alts: Seq<Seq<GlobAtom>>,
    cur: Seq<GlobAtom>,
)
    requires
        0 <= i,
        i + w.len() <= q.len(),
        forall|m: int| 0 <= m < w.len() ==> q[i + m] == #[trigger] w[m] && !is_special(w[m]),
    ensures
        alts_from(q, i, alts, cur) == alts_from(q, i + w.len(), alts, cur + word_atoms(w)),
    decreases w.len(),
{
    lemma_word_atoms(w);
    if w.len() == 0 {
        assert(cur + word_atoms(w) =~= cur);
    } else {
        let c = w[0];
        assert(q[i + 0] == c && !is_special(c));
        assert(q[i] == c);
        assert(atom_at(q, i) == Ok::<(GlobAtom, int), GlobError>((char_atom(c), i + 1)));
        let rest = w.skip(1);
        assert forall|m: int| 0 <= m < rest.len() implies q[(i + 1) + m] == #[trigger] rest[m]
            && !is_special(rest[m]) by {
            assert(rest[m] == w[m + 1]);
            assert(q[i + (m + 1)] == w[m + 1]);
        }
        lemma_read_word(q, i + 1, rest, alts, cur.push(char_atom(c)));
        lemma_word_atoms(rest);
        assert(cur.push(char_atom(c)) + word_atoms(rest) =~= cur + word_atoms(w));
    }
}

/// Reading the words of a brace group: after them, the last word is the one
/// being read and the others are finished alternatives.
proof fn lemma_read_alts(q: Seq<char>, ws: Seq<Seq<char>>)
    requires
        ws.len() >= 1,
        plain_words(ws),
        alts_text(ws).len() <= q.len(),
        forall|m: int| 0 <= m < alts_text(ws).len() ==> #[trigger] q[m] == alts_text(ws)[m],
    ensures
        alts_from(q, 1, Seq::empty(), Seq::empty()) == alts_from(
            q,
            alts_text(ws).len() as int,
            words_atoms(ws.drop_last()),
            word_atoms(ws.last()),
        ),
    decreases ws.len(),
{
    let e = Seq::<GlobAtom>::empty();
    if ws.len() == 1 {
        let w = ws[0];
        assert(alts_text(ws) == seq!['{'] + w);
        assert forall|m: int| 0 <= m < w.len() implies q[1 + m] == #[trigger] w[m] && !is_special(
            w[m],
        ) by {
            assert(q[1 + m] == alts_text(ws)[1 + m]);
            assert(!is_special(ws[0][m]));
        }
        lemma_read_word(q, 1, w, Seq::empty(), e);
        assert(e + word_atoms(w) =~= word_atoms(w));
        assert(words_atoms(ws.drop_last()) =~= Seq::<
            Seq<GlobAtom>,
        >::empty());
    } else {
        let d = ws.drop_last();
        let w = ws.last();
        let pd = alts_text(d);
        assert(alts_text(ws) == pd + seq![','] + w);
        assert(plain_words(d)) by {
            assert forall|k: int, m: int| 0 <= k < d.len() && 0 <= m < d[k].len() implies !is_special(
                #[trigger] d[k][m],
            ) by {
                assert(d[k] == ws[k]);
                assert(!is_special(ws[k][m]));
            }
        }
        assert forall|m: int| 0 <= m < pd.len() implies #[trigger] q[m] == pd[m] by {
            assert(q[m] == alts_text(ws)[m]);
        }
        lemma_read_alts(q, d);
        let j = pd.len() as int;
        assert(q[j] == alts_text(ws)[j]);
        assert(q[j] == ',');
        let done = words_atoms(d.drop_last());
        assert(done.push(word_atoms(d.last())) =~= words_atoms(d));
        assert forall|m: int| 0 <= m < w.len() implies q[(j + 1) + m] == #[trigger] w[m]
            && !is_special(w[m]) by {
            assert(q[(j + 1) + m] == alts_text(ws)[j + 1 + m]);
            assert(ws[ws.len() - 1] == w);
            assert(!is_special(ws[ws.len() - 1][m]));
        }
        lemma_read_word(q, j + 1, w, words_atoms(d), e);
        assert(e + word_atoms(w) =~= word_atoms(w));
    }
}

/// A brace group matches exactly what one of its alternatives matches, for a
/// group of any number of alternatives: `{w0,w1,...}` of plain words matches
/// a text exactly when the text is one of the words.
pub proof fn lemma_alternates(ws: Seq<Seq<char>>, text: Seq<char>)
    requires
        ws.len() >= 1,
        plain_words(ws),
    ensures
        glob_matches(alts_text(ws).push('}'), text) <==> (exists|k: int|
            0 <= k < ws.len() && text == #[trigger] ws[k]),
{
    let p = alts_text(ws).push('}');
    let n = alts_text(ws).len() as int;
    lemma_read_alts(p, ws);
    let alts = words_atoms(ws);
    lemma_words_atoms(ws);
    assert(words_atoms(ws.drop_last()).push(word_atoms(ws.last()))
        =~= alts);
    assert(p[n] == '}');
    assert(alts_from(p, 1, Seq::empty(), Seq::empty()) == Ok::<(Seq<Seq<GlobAtom>>, int), GlobError>(
        (alts, n + 1),
    ));
    assert(p[0] == alts_text(ws)[0]);
    assert(alts_text(ws)[0] == '{') by {
        lemma_alts_text_opens(ws);
    }
    let pc = GlobPiece::Alternates(alts);
    let ps = Seq::<GlobPiece>::empty().push(pc);
    assert(pieces_from(p, n + 1, ps) == Ok::<Seq<GlobPiece>, GlobError>(ps));
    assert(parse_glob(p) == Ok::<Seq<GlobPiece>, GlobError>(ps));
    assert(ps.drop_last() =~= Seq::<GlobPiece>::empty());
    let st = start_flags(text);
    let m = text.len() as int;
    assert(ps.last() == pc);
    assert(pieces_reach(ps.drop_last(), text) == st);
    assert(pieces_reach(ps, text) == piece_reach(pc, text, st));
    if glob_matches(p, text) {
        let x = choose|x: int| 0 <= x < alts.len() && #[trigger] atoms_reach(alts[x], text, st)[m];
        lemma_word_reach(ws[x], text);
        assert(alts[x] == word_atoms(ws[x]));
        assert(text.take(m) =~= text);
    }
    if exists|k: int| 0 <= k < ws.len() && text == #[trigger] ws[k] {
        let k = choose|k: int| 0 <= k < ws.len() && text == #[trigger] ws[k];
        lemma_word_reach(ws[k], text);
        assert(alts[k] == word_atoms(ws[k]));
        assert(text.take(m) =~= text);
        assert(atoms_reach(alts[k], text, st)[m]);
    }
}

proof fn lemma_alts_text_opens(ws: Seq<Seq<char>>)
    ensures
        alts_text(ws).len() >= 1,
        alts_text(ws)[0] == '{',
    decreases ws.len(),
{
    if ws.len() > 1 {
        lemma_alts_text_opens(ws.drop_last());
    }
}

/// A group `{x,y}` of two plain characters matches exactly either one.
pub proof fn lemma_two_alternates(x: char, y: char, text: Seq<char>)
    requires
        !is_special(x),
        !is_special(y),
    ensures
        glob_matches(seq!['{', x, ',', y, '}'], text) <==> (text == seq![x] || text == seq![y]),
{
    let p = seq!['{', x, ',', y, '}'];
    assert(p[0] == '{' && p[1] == x && p[2] == ',' && p[3] == y && p[4] == '}');
    let e = Seq::<GlobAtom>::empty();
    let ax = e.push(GlobAtom::Char(x));
    let ay = e.push(GlobAtom::Char(y));
    let alts = Seq::<Seq<GlobAtom>>::empty().push(ax).push(ay);
    assert(atom_at(p, 1) == Ok::<(GlobAtom, int), GlobError>((GlobAtom::Char(x), 2)));
    assert(atom_at(p, 3) == Ok::<(GlobAtom, int), GlobError>((GlobAtom::Char(y), 4)));
    assert(alts_from(p, 4, Seq::empty().push(ax), ay) == Ok::<(Seq<Seq<GlobAtom>>, int), GlobError>(
        (alts, 5),
    ));
    assert(alts_from(p, 3, Seq::empty().push(ax), e) == alts_from(p, 4, Seq::empty().push(ax), ay));
    assert(alts_from(p, 2, Seq::empty(), ax) == alts_from(p, 3, Seq::empty().push(ax), e));
    assert(alts_from(p, 1, Seq::empty(), e) == alts_from(p, 2, Seq::empty(), ax));
    let pc = GlobPiece::Alternates(alts);
    assert(pieces_from(p, 5, Seq::empty().push(pc)) == Ok::<Seq<GlobPiece>, GlobError>(
        Seq::empty().push(pc),
    ));
    let ps = Seq::<GlobPiece>::empty().push(pc);
    assert(parse_glob(p) == Ok::<Seq<GlobPiece>, GlobError>(ps));
    assert(ps.drop_last() =~= Seq::<GlobPiece>::empty());
    let st = start_flags(text);
    let m = text.len() as int;
    assert(ax.drop_last() =~= e);
    assert(ay.drop_last() =~= e);
    assert(alts[0] == ax && alts[1] == ay);
    assert(ax.last() == GlobAtom::Char(x));
    assert(ay.last() == GlobAtom::Char(y));
    assert(atoms_reach(e, text, st) == st);
    let rx = atoms_reach(ax, text, st);
    let ry = atoms_reach(ay, text, st);
    assert(rx == atom_reach(GlobAtom::Char(x), text, st));
    assert(ry == atom_reach(GlobAtom::Char(y), text, st));
    assert(ps.last() == pc);
    assert(pieces_reach(ps.drop_last(), text) == st);
    assert(pieces_reach(ps, text) == piece_reach(pc, text, st));
    // Either alternative reaches the end exactly when the text is that one character.
    assert(rx[m] == (text.len() == 1 && text[0] == x)) by {
        if after_atom(GlobAtom::Char(x), text, st, m) {
            let j = choose|j: int|
                0 <= j <= text.len() && st[j] && #[trigger] atom_matches(GlobAtom::Char(x), text, j, m);
            assert(j == 0);
        }
        if text.len() == 1 && text[0] == x {
            assert(atom_matches(GlobAtom::Char(x), text, 0, m));
        }
    }
    assert(ry[m] == (text.len() == 1 && text[0] == y)) by {
        if after_atom(GlobAtom::Char(y), text, st, m) {
            let j = choose|j: int|
                0 <= j <= text.len() && st[j] && #[trigger] atom_matches(GlobAtom::Char(y), text, j, m);
            assert(j == 0);
        }
        if text.len() == 1 && text[0] == y {
            assert(atom_matches(GlobAtom::Char(y), text, 0, m));
        }
    }
    if glob_matches(p, text) {
        let k = choose|k: int| 0 <= k < alts.len() && #[trigger] atoms_reach(alts[k], text, st)[m];
        if k == 0 {
            assert(text =~= seq![x]);
        } else {
            assert(text =~= seq![y]);
        }
    }
    if text == seq![x] {
        assert(atoms_reach(alts[0], text, st)[m]);
    }
    if text == seq![y] {
        assert(atoms_reach(alts[1], text, st)[m]);
    }
}

} // verus!
