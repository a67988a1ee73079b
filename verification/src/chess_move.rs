use vstd::prelude::*;
use vstd::string::StrSliceExecFns;
use vstd::string::StringExecFns;
use vstd::utf8::is_ascii_chars;

use crate::game_piece::{GamePiece, Piece};
use crate::position::Position;

verus! {

/// Move represents a move on the chess board. It records the origin and
/// destination squares, an optional promotion piece, and, when known, the
/// piece that moved and the piece captured. The moved and captured pieces
/// are informational only: move identity lives in the squares and the
/// promotion piece alone.
#[derive(Copy, Clone, Debug)]
pub struct ChessMove {
    pub moved_piece: Option<GamePiece>,
    pub o_file: usize,
    pub o_rank: usize,
    pub n_file: usize,
    pub n_rank: usize,
    pub promo_piece: Option<Piece>,
    pub captured_piece: Option<GamePiece>,
}

/// Two moves are the same move of the game when they agree on origin,
/// destination, and promotion piece. The moved and captured pieces carry
/// no identity.
pub open spec fn move_eq(a: ChessMove, b: ChessMove) -> bool {
    &&& a.o_file == b.o_file
    &&& a.o_rank == b.o_rank
    &&& a.n_file == b.n_file
    &&& a.n_rank == b.n_rank
    &&& a.promo_piece == b.promo_piece
}

impl ChessMove {
    /// All four coordinates of the move lie on the 8x8 board.
    pub open spec fn in_range(self) -> bool {
        self.o_file < 8 && self.o_rank < 8 && self.n_file < 8 && self.n_rank < 8
    }

    /// Build a move from its parts.
    pub fn new(
        moved_piece: Option<GamePiece>,
        o_file: usize,
        o_rank: usize,
        n_file: usize,
        n_rank: usize,
        promo_piece: Option<Piece>,
        captured_piece: Option<GamePiece>,
    ) -> (r: ChessMove)
        ensures
            r == (ChessMove { moved_piece, o_file, o_rank, n_file, n_rank, promo_piece, captured_piece }),
    {
        ChessMove { moved_piece, o_file, o_rank, n_file, n_rank, promo_piece, captured_piece }
    }

    /// The lower-case letter naming a file index, as used in long algebraic
    /// notation; indices off the board print as "x".
    pub open spec fn spec_file_str(i: int) -> Seq<char> {
        if i == 0 { seq!['a'] } else if i == 1 { seq!['b'] } else if i == 2 { seq!['c'] }
        else if i == 3 { seq!['d'] } else if i == 4 { seq!['e'] } else if i == 5 { seq!['f'] }
        else if i == 6 { seq!['g'] } else if i == 7 { seq!['h'] } else { seq!['x'] }
    }

    /// Return the file letter for a file index.
    pub fn num_to_file(i: usize) -> (r: &'static str)
        ensures
            r@ == Self::spec_file_str(i as int),
    {
        proof {
            reveal_strlit("a");
            reveal_strlit("b");
            reveal_strlit("c");
            reveal_strlit("d");
            reveal_strlit("e");
            reveal_strlit("f");
            reveal_strlit("g");
            reveal_strlit("h");
            reveal_strlit("x");
        }
        match i {
            0 => "a",
            1 => "b",
            2 => "c",
            3 => "d",
            4 => "e",
            5 => "f",
            6 => "g",
            7 => "h",
            _ => "x",
        }
    }

    /// The digit naming a rank index, one above the index; indices off the
    /// board print as "x".
    pub open spec fn spec_rank_str(i: int) -> Seq<char> {
        if i == 0 { seq!['1'] } else if i == 1 { seq!['2'] } else if i == 2 { seq!['3'] }
        else if i == 3 { seq!['4'] } else if i == 4 { seq!['5'] } else if i == 5 { seq!['6'] }
        else if i == 6 { seq!['7'] } else if i == 7 { seq!['8'] } else { seq!['x'] }
    }

    fn num_to_rank(i: usize) -> (r: &'static str)
        ensures
            r@ == Self::spec_rank_str(i as int),
    {
        proof {
            reveal_strlit("1");
            reveal_strlit("2");
            reveal_strlit("3");
            reveal_strlit("4");
            reveal_strlit("5");
            reveal_strlit("6");
            reveal_strlit("7");
            reveal_strlit("8");
            reveal_strlit("x");
        }
        match i {
            0 => "1",
            1 => "2",
            2 => "3",
            3 => "4",
            4 => "5",
            5 => "6",
            6 => "7",
            7 => "8",
            _ => "x",
        }
    }

    /// The lower-case letter naming a promotion piece in long algebraic
    /// notation.
    pub open spec fn spec_promo_str(p: Piece) -> Seq<char> {
        match p {
            Piece::Pawn => seq!['p'],
            Piece::Rook => seq!['r'],
            Piece::Knight => seq!['n'],
            Piece::Bishop => seq!['b'],
            Piece::Queen => seq!['q'],
            Piece::King => seq!['k'],
        }
    }

    fn promo_str(p: Piece) -> (r: &'static str)
        ensures
            r@ == Self::spec_promo_str(p),
    {
        proof {
            reveal_strlit("p");
            reveal_strlit("r");
            reveal_strlit("n");
            reveal_strlit("b");
            reveal_strlit("q");
            reveal_strlit("k");
        }
        match p {
            Piece::Pawn => "p",
            Piece::Rook => "r",
            Piece::Knight => "n",
            Piece::Bishop => "b",
            Piece::Queen => "q",
            Piece::King => "k",
        }
    }

    /// The long algebraic notation of the move: origin file and rank,
    /// destination file and rank, and the promotion letter if any.
    pub open spec fn spec_notation(self) -> Seq<char> {
        Self::spec_file_str(self.o_file as int) + Self::spec_rank_str(self.o_rank as int)
            + Self::spec_file_str(self.n_file as int) + Self::spec_rank_str(self.n_rank as int)
            + (match self.promo_piece {
                Some(p) => Self::spec_promo_str(p),
                None => Seq::<char>::empty(),
            })
    }

    /// Render the move in long algebraic notation.
    pub fn notation(&self) -> (r: String)
        ensures
            r@ == self.spec_notation(),
    {
        let mut s = String::from_str(Self::num_to_file(self.o_file));
        s.append(Self::num_to_rank(self.o_rank));
        s.append(Self::num_to_file(self.n_file));
        s.append(Self::num_to_rank(self.n_rank));
        match self.promo_piece {
            Some(p) => {
                s.append(Self::promo_str(p));
            },
            None => {},
        }
        proof {
            assert(s@ =~= self.spec_notation());
        }
        s
    }
}

impl PartialEq for ChessMove {
    fn eq(&self, other: &Self) -> (r: bool) {
        let equal = self.o_file == other.o_file && self.o_rank == other.o_rank
            && self.n_file == other.n_file && self.n_rank == other.n_rank;

        let promo_equal = match (&self.promo_piece, &other.promo_piece) {
            (Some(a), Some(b)) => a == b,
            (None, None) => true,
            _ => false,
        };

        equal && promo_equal
    }
}

impl vstd::std_specs::cmp::PartialEqSpecImpl for ChessMove {
    open spec fn obeys_eq_spec() -> bool {
        true
    }

    open spec fn eq_spec(&self, other: &Self) -> bool {
        move_eq(*self, *other)
    }
}

/// The ways parsing a textual move can fail: no move-shaped text at all, a
/// bad file or rank token, or an origin square with no piece on it.
#[derive(Debug, Clone, Copy, PartialEq, Eq, Structural)]
pub enum ParseMoveError {
    PieceParseError,
    FileParseError,
    RankParseError,
    IllegalMoveError,
}

/// A file letter of long algebraic notation.
pub open spec fn is_file_char(c: char) -> bool {
    'a' <= c && c <= 'h'
}

/// A rank digit of long algebraic notation.
pub open spec fn is_rank_char(c: char) -> bool {
    '1' <= c && c <= '8'
}

/// A promotion letter of long algebraic notation.
pub open spec fn is_promo_char(c: char) -> bool {
    c == 'b' || c == 'n' || c == 'r' || c == 'q'
}

/// The mandatory part of a long algebraic move starts at position i of the
/// text: file, rank, file, rank.
pub open spec fn alg_match_at(s: Seq<char>, i: int) -> bool {
    &&& 0 <= i
    &&& i + 4 <= s.len()
    &&& is_file_char(s[i])
    &&& is_rank_char(s[i + 1])
    &&& is_file_char(s[i + 2])
    &&& is_rank_char(s[i + 3])
}

/// An ASCII whitespace character, as trimming sees it.
pub open spec fn is_ascii_space(c: char) -> bool {
    c == ' ' || c == '\t' || c == '\n' || c == '\r' || c == '\u{b}' || c == '\u{c}'
}

/// Text made only of ASCII characters with no whitespace among them:
/// trimming leaves such text unchanged.
pub open spec fn clean_input(s: Seq<char>) -> bool {
    is_ascii_chars(s) && forall|i: int| 0 <= i < s.len() ==> !is_ascii_space(#[trigger] s[i])
}

/// The lower-case form of an ASCII character; everything but 'A' to 'Z' is
/// left alone.
pub open spec fn ascii_lower(c: char) -> char {
    if 'A' <= c && c <= 'Z' {
        ((c as u8) + 32) as char
    } else {
        c
    }
}

/// What str::to_lowercase returns: a function of the characters alone.
pub uninterp spec fn lower_of(s: Seq<char>) -> Seq<char>;

/// The piece a promotion letter names.
pub open spec fn promo_piece_of(c: char) -> Option<Piece> {
    if c == 'b' {
        Some(Piece::Bishop)
    } else if c == 'n' {
        Some(Piece::Knight)
    } else if c == 'r' {
        Some(Piece::Rook)
    } else if c == 'q' {
        Some(Piece::Queen)
    } else {
        None
    }
}

/// The text with its leading run of ASCII whitespace removed.
pub open spec fn drop_leading_spaces(s: Seq<char>) -> Seq<char>
    decreases s.len(),
{
    if s.len() > 0 && is_ascii_space(s[0]) {
        drop_leading_spaces(s.skip(1))
    } else {
        s
    }
}

/// The text with its trailing run of ASCII whitespace removed.
pub open spec fn drop_trailing_spaces(s: Seq<char>) -> Seq<char>
    decreases s.len(),
{
    if s.len() > 0 && is_ascii_space(s.last()) {
        drop_trailing_spaces(s.drop_last())
    } else {
        s
    }
}

/// The text with leading and trailing ASCII whitespace removed: what
/// trimming does to ASCII text.
pub open spec fn ascii_trim(s: Seq<char>) -> Seq<char> {
    drop_trailing_spaces(drop_leading_spaces(s))
}

proof fn lemma_drop_leading_spaces_ascii(s: Seq<char>)
    requires
        is_ascii_chars(s),
    ensures
        is_ascii_chars(drop_leading_spaces(s)),
    decreases s.len(),
{
    if s.len() > 0 && is_ascii_space(s[0]) {
        assert forall|i: int| 0 <= i < s.skip(1).len() implies '\0' <= #[trigger] s.skip(1)[i]
            <= '\u{7f}' by {
            assert(s.skip(1)[i] == s[i + 1]);
        }
        lemma_drop_leading_spaces_ascii(s.skip(1));
    }
}

proof fn lemma_drop_trailing_spaces_ascii(s: Seq<char>)
    requires
        is_ascii_chars(s),
    ensures
        is_ascii_chars(drop_trailing_spaces(s)),
    decreases s.len(),
{
    if s.len() > 0 && is_ascii_space(s.last()) {
        assert forall|i: int| 0 <= i < s.drop_last().len() implies '\0'
            <= #[trigger] s.drop_last()[i] <= '\u{7f}' by {
            assert(s.drop_last()[i] == s[i]);
        }
        lemma_drop_trailing_spaces_ascii(s.drop_last());
    }
}

/// Text with no whitespace at all trims to itself.
pub proof fn lemma_ascii_trim_clean(s: Seq<char>)
    requires
        clean_input(s),
    ensures
        ascii_trim(s) == s,
{
}

/// The five pieces of text a long algebraic move is made of, each as the
/// single character the pattern captured.
struct AlgParts {
    file1: char,
    rank1: char,
    file2: char,
    rank2: char,
    promo: Option<char>,
}

/// Relies on str::trim: it removes leading and trailing Unicode
/// whitespace, and on ASCII text the whitespace characters are exactly the
/// six ASCII ones, so ASCII text comes back with its leading and trailing
/// runs of those removed.
#[verifier::external_body]
fn trim_str(s: &str) -> (r: &str)
    ensures
        r@.len() <= s@.len(),
        is_ascii_chars(s@) ==> r@ == ascii_trim(s@),
{
    s.trim()
}

/// Relies on str::to_lowercase: the result depends on the characters alone,
/// and on ASCII text it lower-cases the letters 'A' to 'Z' and leaves every
/// other character unchanged.
#[verifier::external_body]
fn lowercase_str(s: &str) -> (r: String)
    ensures
        r@ == lower_of(s@),
        is_ascii_chars(s@) ==> r@ == s@.map_values(|c: char| ascii_lower(c)),
{
    s.to_lowercase()
}

/// Relies on regex::Regex::new and Regex::captures with the long algebraic
/// pattern: captures finds the leftmost match, whose mandatory groups are
/// one file letter, rank digit, file letter and rank digit each, and whose
/// optional fifth group greedily takes a following promotion letter. The
/// returned index is the match's position counted in characters.
#[verifier::external_body]
fn capture_algebraic(s: &str) -> (r: Option<(usize, AlgParts)>)
    ensures
        match r {
            Some((idx, parts)) => {
                &&& alg_match_at(s@, idx as int)
                &&& forall|j: int| 0 <= j < idx ==> !alg_match_at(s@, j)
                &&& parts.file1 == s@[idx as int]
                &&& parts.rank1 == s@[idx + 1]
                &&& parts.file2 == s@[idx + 2]
                &&& parts.rank2 == s@[idx + 3]
                &&& parts.promo == (if idx + 4 < s@.len() && is_promo_char(s@[idx + 4]) {
                    Some(s@[idx + 4])
                } else {
                    None::<char>
                })
            },
            None => forall|j: int| 0 <= j < s@.len() ==> !alg_match_at(s@, j),
        },
{
    let re = regex::Regex::new(
        "(?P<file1>[a-h])(?P<rank1>[1-8])(?P<file2>[a-h])(?P<rank2>[1-8])(?P<promotionPiece>[bnrq])?",
    ).unwrap();
    let caps = re.captures(s)?;
    let idx = s[..caps.get(0).unwrap().start()].chars().count();
    let ch = |i: usize| caps.get(i).unwrap().as_str().chars().next().unwrap();
    let promo = caps.get(5).map(|m| m.as_str().chars().next().unwrap());
    Some((idx, AlgParts { file1: ch(1), rank1: ch(2), file2: ch(3), rank2: ch(4), promo }))
}

/// The digits of a rank token, after an optional leading plus sign.
pub open spec fn rank_digits(s: Seq<char>) -> Seq<char> {
    if s.len() > 0 && s[0] == '+' {
        s.skip(1)
    } else {
        s
    }
}

/// A decimal digit.
pub open spec fn is_digit_char(c: char) -> bool {
    '0' <= c && c <= '9'
}

/// The text is one or more decimal digits.
pub open spec fn all_digits(s: Seq<char>) -> bool {
    s.len() > 0 && forall|i: int| 0 <= i < s.len() ==> is_digit_char(#[trigger] s[i])
}

/// The number the decimal digits spell.
pub open spec fn digits_val(s: Seq<char>) -> int
    decreases s.len(),
{
    if s.len() == 0 {
        0
    } else {
        digits_val(s.drop_last()) * 10 + (s.last() as int - 48)
    }
}

proof fn lemma_digits_val_nonneg(s: Seq<char>)
    requires
        forall|i: int| 0 <= i < s.len() ==> is_digit_char(#[trigger] s[i]),
    ensures
        digits_val(s) >= 0,
    decreases s.len(),
{
    if s.len() > 0 {
        lemma_digits_val_nonneg(s.drop_last());
    }
}

/// Reading further digits never shrinks the number spelled so far.
proof fn lemma_digits_val_extend(s: Seq<char>, i: int, j: int)
    requires
        forall|k: int| 0 <= k < s.len() ==> is_digit_char(#[trigger] s[k]),
        0 <= i <= j <= s.len(),
    ensures
        digits_val(s.subrange(0, i)) <= digits_val(s.subrange(0, j)),
    decreases j - i,
{
    if i < j {
        lemma_digits_val_extend(s, i, j - 1);
        let a = s.subrange(0, j - 1);
        let b = s.subrange(0, j);
        assert(b.drop_last() =~= a);
        lemma_digits_val_nonneg(a);
    }
}

/// Parse a file letter: the first character, lower-cased, gives the file
/// index counted from 'a'. Empty text, or a character before 'a', is a
/// file error.
pub fn parse_file(file: &str) -> (r: Result<usize, ParseMoveError>)
    ensures
        file@.len() == 0 ==> r == Err::<usize, ParseMoveError>(ParseMoveError::FileParseError),
        file@.len() > 0 ==> {
            let c = ascii_lower(file@[0]);
            if c >= 'a' {
                r == Ok::<usize, ParseMoveError>(((c as int) - ('a' as int)) as usize)
            } else {
                r == Err::<usize, ParseMoveError>(ParseMoveError::FileParseError)
            }
        },
{
    if file.unicode_len() == 0 {
        return Err(ParseMoveError::FileParseError);
    }
    let c = file.get_char(0);
    let code = c as u32;
    let lc: u32 = if code >= 65 && code <= 90 { code + 32 } else { code };
    proof {
        assert(lc == ascii_lower(file@[0]) as u32);
    }
    if lc < 97 {
        return Err(ParseMoveError::FileParseError);
    }
    Ok((lc - 97) as usize)
}

/// Parse a rank token: decimal digits (with an optional leading plus sign)
/// spelling a number from one upward, handed back one lower as a rank
/// index. Anything else, zero, or a number too large to hold is a rank
/// error.
pub fn parse_rank(rank: &str) -> (r: Result<usize, ParseMoveError>)
    ensures
        r is Ok ==> all_digits(rank_digits(rank@))
            && 1 <= digits_val(rank_digits(rank@)) <= usize::MAX
            && r->Ok_0 as int == digits_val(rank_digits(rank@)) - 1,
        r is Err ==> r->Err_0 == ParseMoveError::RankParseError
            && !(all_digits(rank_digits(rank@))
                && 1 <= digits_val(rank_digits(rank@)) <= usize::MAX),
{
    let ghost digits = rank_digits(rank@);
    let n = rank.unicode_len();
    let start: usize = if n > 0 && rank.get_char(0) == '+' {
        1
    } else {
        0
    };
    proof {
        assert(digits =~= rank@.subrange(start as int, n as int));
    }
    if n == start {
        return Err(ParseMoveError::RankParseError);
    }
    let mut value: usize = 0;
    let mut i: usize = start;
    while i < n
        invariant
            start <= i <= n,
            n == rank@.len(),
            digits == rank_digits(rank@),
            digits == rank@.subrange(start as int, n as int),
            forall|k: int| start <= k < i ==> is_digit_char(#[trigger] rank@[k]),
            value as int == digits_val(rank@.subrange(start as int, i as int)),
        decreases n - i,
    {
        let c = rank.get_char(i);
        let code = c as u32;
        if code < 48 || code > 57 {
            proof {
                assert(digits[i - start] == rank@[i as int]);
                assert(!is_digit_char(c));
                assert(!all_digits(digits));
            }
            return Err(ParseMoveError::RankParseError);
        }
        let digit = (code - 48) as usize;
        if value > (usize::MAX - digit) / 10 {
            // the number no longer fits; more digits only make it larger
            proof {
                let pre = rank@.subrange(start as int, i as int);
                let cur = rank@.subrange(start as int, i + 1);
                assert(cur.drop_last() =~= pre);
                if all_digits(digits) {
                    assert(value * 10 + digit > usize::MAX);
                    lemma_digits_val_extend(digits, i + 1 - start, digits.len() as int);
                    assert(digits.subrange(0, i + 1 - start) =~= cur);
                    assert(digits.subrange(0, digits.len() as int) =~= digits);
                }
            }
            return Err(ParseMoveError::RankParseError);
        }
        let ghost pre = rank@.subrange(start as int, i as int);
        value = value * 10 + digit;
        proof {
            let cur = rank@.subrange(start as int, i + 1);
            assert(cur.drop_last() =~= pre);
            assert(cur.last() == rank@[i as int]);
        }
        i = i + 1;
    }
    proof {
        assert(rank@.subrange(start as int, n as int) =~= digits);
        assert(all_digits(digits));
    }
    if value == 0 {
        return Err(ParseMoveError::RankParseError);
    }
    Ok(value - 1)
}

/// The file index a captured file letter names.
fn file_index(c: char) -> (r: usize)
    requires
        is_file_char(c),
    ensures
        r == (c as int) - ('a' as int),
        r < 8,
{
    ((c as u32) - 97) as usize
}

/// The rank index a captured rank digit names.
fn rank_index(c: char) -> (r: usize)
    requires
        is_rank_char(c),
    ensures
        r == (c as int) - ('1' as int),
        r < 8,
{
    ((c as u32) - 49) as usize
}

/// The piece a captured promotion letter names.
fn promo_from_char(c: char) -> (r: Option<Piece>)
    ensures
        r == promo_piece_of(c),
{
    let code = c as u32;
    if code == 98 {
        Some(Piece::Bishop)
    } else if code == 110 {
        Some(Piece::Knight)
    } else if code == 114 {
        Some(Piece::Rook)
    } else if code == 113 {
        Some(Piece::Queen)
    } else {
        None
    }
}

/// What parsing must produce once the leftmost match of the sanitized text
/// is known to start at idx: the squares the four characters name, the
/// promotion piece if a letter was captured, the moved piece read from the
/// origin square — an empty origin is an error — and the captured piece
/// read from the destination square.
pub open spec fn parse_at_ok(
    w: Seq<char>,
    idx: int,
    pos: Position,
    r: Result<ChessMove, ParseMoveError>,
) -> bool {
    let f1 = (w[idx] as int) - ('a' as int);
    let r1 = (w[idx + 1] as int) - ('1' as int);
    let f2 = (w[idx + 2] as int) - ('a' as int);
    let r2 = (w[idx + 3] as int) - ('1' as int);
    let promo = if idx + 4 < w.len() && is_promo_char(w[idx + 4]) {
        promo_piece_of(w[idx + 4])
    } else {
        None
    };
    match pos.at(f1, r1) {
        Some(piece) => r == Ok::<ChessMove, ParseMoveError>(ChessMove {
            moved_piece: Some(piece),
            o_file: f1 as usize,
            o_rank: r1 as usize,
            n_file: f2 as usize,
            n_rank: r2 as usize,
            promo_piece: promo,
            captured_piece: pos.at(f2, r2),
        }),
        None => r == Err::<ChessMove, ParseMoveError>(ParseMoveError::IllegalMoveError),
    }
}

/// What parsing must produce for the sanitized text w: the leftmost match
/// decides the move, and text with no match at all is a piece error.
pub open spec fn parse_result_ok(
    w: Seq<char>,
    pos: Position,
    r: Result<ChessMove, ParseMoveError>,
) -> bool {
    if exists|j: int| alg_match_at(w, j) {
        exists|idx: int| {
            &&& alg_match_at(w, idx)
            &&& forall|j: int| 0 <= j < idx ==> !alg_match_at(w, j)
            &&& parse_at_ok(w, idx, pos, r)
        }
    } else {
        r == Err::<ChessMove, ParseMoveError>(ParseMoveError::PieceParseError)
    }
}

/// A move's own notation parses back to the same move of the game: the
/// rendered text is clean (so parsing sees it unchanged), its leftmost
/// move-shaped piece starts at its beginning, and any result obeying the
/// parse specification against a position holding a piece on the origin
/// square is the same move by move identity.
pub proof fn lemma_notation_round_trip(
    m: ChessMove,
    pos: Position,
    r: Result<ChessMove, ParseMoveError>,
)
    requires
        m.in_range(),
        match m.promo_piece {
            Some(p) => p == Piece::Bishop || p == Piece::Knight || p == Piece::Rook
                || p == Piece::Queen,
            None => true,
        },
        pos.at(m.o_file as int, m.o_rank as int) is Some,
        parse_result_ok(m.spec_notation().map_values(|c: char| ascii_lower(c)), pos, r),
    ensures
        clean_input(m.spec_notation()),
        r is Ok,
        move_eq(r->Ok_0, m),
{
    let w0 = m.spec_notation();
    let w = w0.map_values(|c: char| ascii_lower(c));
    let of = m.o_file as int;
    let or = m.o_rank as int;
    let nf = m.n_file as int;
    let nr = m.n_rank as int;

    let head = ChessMove::spec_file_str(of) + ChessMove::spec_rank_str(or)
        + ChessMove::spec_file_str(nf) + ChessMove::spec_rank_str(nr);
    assert(head.len() == 4);
    assert(w0[0] == ChessMove::spec_file_str(of)[0]);
    assert(w0[1] == ChessMove::spec_rank_str(or)[0]);
    assert(w0[2] == ChessMove::spec_file_str(nf)[0]);
    assert(w0[3] == ChessMove::spec_rank_str(nr)[0]);
    assert(is_file_char(w0[0]) && (w0[0] as int) - ('a' as int) == of);
    assert(is_rank_char(w0[1]) && (w0[1] as int) - ('1' as int) == or);
    assert(is_file_char(w0[2]) && (w0[2] as int) - ('a' as int) == nf);
    assert(is_rank_char(w0[3]) && (w0[3] as int) - ('1' as int) == nr);
    match m.promo_piece {
        Some(p) => {
            assert(w0.len() == 5);
            assert(w0[4] == ChessMove::spec_promo_str(p)[0]);
            assert(is_promo_char(w0[4]) && promo_piece_of(w0[4]) == Some(p));
        },
        None => {
            assert(w0.len() == 4);
        },
    }

    // every character of the notation is a plain ASCII letter or digit,
    // already lower case
    assert forall|i: int| 0 <= i < w0.len() implies '\0' <= #[trigger] w0[i] <= '\u{7f}'
        && !is_ascii_space(w0[i]) && ascii_lower(w0[i]) == w0[i] by {}
    assert(clean_input(w0));
    assert(w =~= w0);

    // the text itself is the leftmost match
    assert(alg_match_at(w, 0));
    let idx = choose|idx: int| {
        &&& alg_match_at(w, idx)
        &&& forall|j: int| 0 <= j < idx ==> !alg_match_at(w, j)
        &&& parse_at_ok(w, idx, pos, r)
    };
    assert(idx == 0);
    assert(parse_at_ok(w, 0, pos, r));
}

impl ChessMove {
    /// Parse a move in long algebraic notation against a position: trim and
    /// lower-case the text, find the leftmost move-shaped piece of it, and
    /// resolve the moved and captured pieces by looking the named squares
    /// up on the board. Fails when no move-shaped text is found, or when
    /// the origin square is empty.
    pub fn from_algebraic(alg_move: &str, p: &Position) -> (r: Result<ChessMove, ParseMoveError>)
        requires
            p.wf(),
        ensures
            is_ascii_chars(alg_move@) ==> parse_result_ok(
                ascii_trim(alg_move@).map_values(|c: char| ascii_lower(c)),
                *p,
                r,
            ),
            match r {
                Ok(m) => {
                    &&& m.in_range()
                    &&& m.moved_piece is Some
                    &&& m.moved_piece == p.at(m.o_file as int, m.o_rank as int)
                    &&& m.captured_piece == p.at(m.n_file as int, m.n_rank as int)
                },
                Err(_) => true,
            },
    {
        let trimmed = trim_str(alg_move);
        proof {
            if is_ascii_chars(alg_move@) {
                lemma_drop_leading_spaces_ascii(alg_move@);
                lemma_drop_trailing_spaces_ascii(drop_leading_spaces(alg_move@));
                assert(is_ascii_chars(trimmed@));
            }
        }
        let sanitized = lowercase_str(trimmed);
        match capture_algebraic(sanitized.as_str()) {
            None => Err(ParseMoveError::PieceParseError),
            Some((idx, parts)) => {
                let file1 = file_index(parts.file1);
                let rank1 = rank_index(parts.rank1);
                let file2 = file_index(parts.file2);
                let rank2 = rank_index(parts.rank2);
                let promo_option = match parts.promo {
                    Some(c) => promo_from_char(c),
                    None => None,
                };
                let moved_piece = p.board[rank1][file1];
                match moved_piece {
                    None => Err(ParseMoveError::IllegalMoveError),
                    Some(mp) => {
                        let captured_piece = p.board[rank2][file2];
                        Ok(ChessMove::new(
                            Some(mp),
                            file1,
                            rank1,
                            file2,
                            rank2,
                            promo_option,
                            captured_piece,
                        ))
                    },
                }
            },
        }
    }
}

} // verus!
