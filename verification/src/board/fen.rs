//! FEN text: writing a position as its six fields, and reading one back.

use vstd::prelude::*;
use crate::bits::bit64;
use crate::board::Board;
use crate::castling::CastlingRights;
use crate::piece::Piece;
use crate::player::Player;
use crate::tile::Tile;
use crate::moves::Move;
use vstd::string::StringExecFnsIsAscii;
use vstd::string::StringSliceAdditionalSpecFns;

verus! {

broadcast use crate::bits::group_bit_lemmas, vstd::array::group_array_axioms;

/// The digit character of a value below ten.
pub open spec fn digit_char(d: int) -> char {
    if d == 0 {
        '0'
    } else if d == 1 {
        '1'
    } else if d == 2 {
        '2'
    } else if d == 3 {
        '3'
    } else if d == 4 {
        '4'
    } else if d == 5 {
        '5'
    } else if d == 6 {
        '6'
    } else if d == 7 {
        '7'
    } else if d == 8 {
        '8'
    } else {
        '9'
    }
}

/// A non-negative number in decimal, most significant digit first.
pub open spec fn num_chars(n: int) -> Seq<char>
    decreases n,
{
    if n < 10 {
        seq![digit_char(n)]
    } else {
        num_chars(n / 10) + seq![digit_char(n % 10)]
    }
}

/// The rest of one rank of the placement field, from file `x` on, with
/// `pending` empty squares not yet written: empties collapse into a
/// digit, pieces write their letter.
pub open spec fn rank_chars(b: Board, y: int, x: int, pending: int) -> Seq<char>
    decreases 8 - x,
{
    if x >= 8 {
        if pending > 0 {
            seq![digit_char(pending)]
        } else {
            Seq::<char>::empty()
        }
    } else {
        match b.piece_color_at(Tile((y * 8 + x) as u8)) {
            Some((p, c)) => (if pending > 0 {
                seq![digit_char(pending)]
            } else {
                Seq::<char>::empty()
            }) + seq![p.spec_fen_char(c)] + rank_chars(b, y, x + 1, 0),
            None => rank_chars(b, y, x + 1, pending + 1),
        }
    }
}

/// The placement field from rank `hi` down to rank `lo`, ranks joined
/// by a slash.
pub open spec fn ranks_down(b: Board, hi: int, lo: int) -> Seq<char>
    decreases hi - lo,
{
    if hi <= lo {
        rank_chars(b, lo, 0, 0)
    } else {
        rank_chars(b, hi, 0, 0) + seq!['/'] + ranks_down(b, hi - 1, lo)
    }
}

/// The en-passant field: the target's name, or a dash.
pub open spec fn ep_chars(b: Board) -> Seq<char> {
    match b.en_passant {
        Some(t) => seq![t.spec_file_char(), t.spec_rank_char()],
        None => seq!['-'],
    }
}

/// The full FEN text of a position: placement, side to move, castling
/// rights, en-passant target, half-move clock and full-move number,
/// separated by single spaces.
pub open spec fn fen_chars(b: Board) -> Seq<char> {
    ranks_down(b, 7, 0) + seq![' '] + (if b.white_turn {
        seq!['w']
    } else {
        seq!['b']
    }) + seq![' '] + b.castling.spec_fen() + seq![' '] + ep_chars(b) + seq![' '] + num_chars(
        b.half_moves as int,
    ) + seq![' '] + num_chars(b.full_move as int)
}

/// Writing the placement one rank lower extends the text by a slash and
/// that rank.
proof fn lemma_ranks_down_snoc(b: Board, hi: int, lo: int)
    requires
        hi > lo,
    ensures
        ranks_down(b, hi, lo) =~= ranks_down(b, hi, lo + 1) + seq!['/'] + rank_chars(b, lo, 0, 0),
    decreases hi - lo,
{
    if hi - 1 > lo {
        lemma_ranks_down_snoc(b, hi - 1, lo);
    } else {
        assert(ranks_down(b, hi - 1, lo) == rank_chars(b, lo, 0, 0));
        assert(ranks_down(b, hi, lo + 1) == rank_chars(b, hi, 0, 0));
    }
}

/// Append one character of the FEN alphabet to the string.
fn push_fen_char(s: &mut String, c: char)
    requires
        is_fen_char(c),
    ensures
        final(s)@ == old(s)@ + seq![c],
{
    let lit: &str = match c {
        'p' => "p",
        'n' => "n",
        'b' => "b",
        'r' => "r",
        'q' => "q",
        'k' => "k",
        'P' => "P",
        'N' => "N",
        'B' => "B",
        'R' => "R",
        'Q' => "Q",
        'K' => "K",
        '0' => "0",
        '1' => "1",
        '2' => "2",
        '3' => "3",
        '4' => "4",
        '5' => "5",
        '6' => "6",
        '7' => "7",
        '8' => "8",
        '9' => "9",
        '/' => "/",
        ' ' => " ",
        '-' => "-",
        'w' => "w",
        'a' => "a",
        'c' => "c",
        'd' => "d",
        'e' => "e",
        'f' => "f",
        'g' => "g",
        _ => "h",
    };
    proof {
        reveal_strlit("p");
        reveal_strlit("n");
        reveal_strlit("b");
        reveal_strlit("r");
        reveal_strlit("q");
        reveal_strlit("k");
        reveal_strlit("P");
        reveal_strlit("N");
        reveal_strlit("B");
        reveal_strlit("R");
        reveal_strlit("Q");
        reveal_strlit("K");
        reveal_strlit("0");
        reveal_strlit("1");
        reveal_strlit("2");
        reveal_strlit("3");
        reveal_strlit("4");
        reveal_strlit("5");
        reveal_strlit("6");
        reveal_strlit("7");
        reveal_strlit("8");
        reveal_strlit("9");
        reveal_strlit("/");
        reveal_strlit(" ");
        reveal_strlit("-");
        reveal_strlit("w");
        reveal_strlit("a");
        reveal_strlit("c");
        reveal_strlit("d");
        reveal_strlit("e");
        reveal_strlit("f");
        reveal_strlit("g");
        reveal_strlit("h");
        assert(lit@ =~= seq![c]);
    }
    s.append(lit);
    proof {
        assert(s@ =~= old(s)@ + seq![c]);
    }
}

/// The characters FEN text is made of.
pub open spec fn is_fen_char(c: char) -> bool {
    c == 'p' || c == 'n' || c == 'b' || c == 'r' || c == 'q' || c == 'k' || c == 'P' || c == 'N'
        || c == 'B' || c == 'R' || c == 'Q' || c == 'K' || c == '0' || c == '1' || c == '2' || c
        == '3' || c == '4' || c == '5' || c == '6' || c == '7' || c == '8' || c == '9' || c == '/'
        || c == ' ' || c == '-' || c == 'w' || c == 'a' || c == 'c' || c == 'd' || c == 'e' || c
        == 'f' || c == 'g' || c == 'h'
}

/// Append a number in decimal.
fn push_num(s: &mut String, n: u32)
    ensures
        final(s)@ == old(s)@ + num_chars(n as int),
    decreases n,
{
    if n < 10 {
        let d: char = match n {
            0 => '0',
            1 => '1',
            2 => '2',
            3 => '3',
            4 => '4',
            5 => '5',
            6 => '6',
            7 => '7',
            8 => '8',
            _ => '9',
        };
        push_fen_char(s, d);
    } else {
        push_num(s, n / 10);
        let d10 = n % 10;
        let d: char = match d10 {
            0 => '0',
            1 => '1',
            2 => '2',
            3 => '3',
            4 => '4',
            5 => '5',
            6 => '6',
            7 => '7',
            8 => '8',
            _ => '9',
        };
        push_fen_char(s, d);
        proof {
            assert(s@ =~= old(s)@ + num_chars(n as int));
        }
    }
}

impl Board {
    /// Write the position as FEN text, the exact inverse of the reader:
    /// piece placement rank by rank from the eighth, then side to move,
    /// castling rights in `KQkq` order, en-passant target, half-move
    /// clock and full-move number.
    pub fn to_fen(&self) -> (r: String)
        requires
            self.wf(),
        ensures
            r@ == fen_chars(*self),
    {
        let mut out = String::new();
        let mut yi: u8 = 8;
        while yi > 0
            invariant
                self.wf(),
                yi <= 8,
                out@ =~= (if yi == 8 {
                    Seq::<char>::empty()
                } else {
                    ranks_down(*self, 7, yi as int) + (if yi > 0 {
                        seq!['/']
                    } else {
                        Seq::<char>::empty()
                    })
                }),
            decreases yi,
        {
            let y = yi - 1;
            let mut x: u8 = 0;
            let mut pending: u8 = 0;
            let ghost entry = out@;
            while x < 8
                invariant
                    self.wf(),
                    y < 8,
                    x <= 8,
                    pending <= x,
                    entry + rank_chars(*self, y as int, 0, 0) =~= out@ + rank_chars(
                        *self,
                        y as int,
                        x as int,
                        pending as int,
                    ),
                decreases 8 - x,
            {
                let t = Tile(y * 8 + x);
                match self.get_piece_at_tile(t) {
                    Some((p, c)) => {
                        if pending > 0 {
                            let d: char = match pending {
                                1 => '1',
                                2 => '2',
                                3 => '3',
                                4 => '4',
                                5 => '5',
                                6 => '6',
                                _ => '7',
                            };
                            push_fen_char(&mut out, d);
                        }
                        let pc = p.to_fen_char(c);
                        proof {
                            assert(is_fen_char(pc));
                        }
                        push_fen_char(&mut out, pc);
                        pending = 0;
                    },
                    None => {
                        pending = pending + 1;
                    },
                }
                x = x + 1;
            }
            if pending > 0 {
                let d: char = match pending {
                    1 => '1',
                    2 => '2',
                    3 => '3',
                    4 => '4',
                    5 => '5',
                    6 => '6',
                    7 => '7',
                    _ => '8',
                };
                push_fen_char(&mut out, d);
            }
            proof {
                assert(out@ =~= entry + rank_chars(*self, y as int, 0, 0));
                if yi != 8 {
                    lemma_ranks_down_snoc(*self, 7, y as int);
                    assert(out@ =~= ranks_down(*self, 7, y as int));
                } else {
                    assert(out@ =~= ranks_down(*self, 7, 7));
                }
            }
            if y > 0 {
                push_fen_char(&mut out, '/');
            }
            yi = y;
        }
        push_fen_char(&mut out, ' ');
        if self.white_turn {
            push_fen_char(&mut out, 'w');
        } else {
            push_fen_char(&mut out, 'b');
        }
        push_fen_char(&mut out, ' ');
        let cr = self.castling.to_fen();
        out.append(cr.as_str());
        push_fen_char(&mut out, ' ');
        match self.en_passant {
            Some(t) => {
                let nm = t.name();
                out.append(nm.as_str());
                proof {
                    assert(nm@ =~= ep_chars(*self));
                }
            },
            None => {
                push_fen_char(&mut out, '-');
            },
        }
        push_fen_char(&mut out, ' ');
        push_num(&mut out, self.half_moves as u32);
        push_fen_char(&mut out, ' ');
        push_num(&mut out, self.full_move);
        proof {
            assert(out@ =~= fen_chars(*self));
        }
        out
    }
}



/// The end of the whitespace-free run starting at `i`.
pub open spec fn field_end(bs: Seq<u8>, i: int) -> int
    decreases bs.len() - i,
{
    if i < 0 || i >= bs.len() || bs[i] == 32 {
        i
    } else {
        field_end(bs, i + 1)
    }
}

/// A field's end lies between its start and the end of the text.
pub proof fn lemma_field_end_bounds(bs: Seq<u8>, i: int)
    requires
        0 <= i <= bs.len(),
    ensures
        i <= field_end(bs, i) <= bs.len(),
    decreases bs.len() - i,
{
    if i < bs.len() && bs[i] != 32 {
        lemma_field_end_bounds(bs, i + 1);
    }
}

/// The whitespace-separated fields of the text from byte `i` on, as
/// start and end positions.
pub open spec fn fields_spec(bs: Seq<u8>, i: int) -> Seq<(int, int)>
    decreases bs.len() - i, 1int,
    when 0 <= i <= bs.len()
    via fields_spec_dec
{
    if i >= bs.len() {
        Seq::<(int, int)>::empty()
    } else if bs[i] == 32 {
        fields_spec(bs, i + 1)
    } else {
        seq![(i, field_end(bs, i))] + fields_spec(bs, field_end(bs, i))
    }
}

#[via_fn]
proof fn fields_spec_dec(bs: Seq<u8>, i: int) {
    if 0 <= i < bs.len() && bs[i] != 32 {
        lemma_field_end_bounds(bs, i + 1);
        assert(field_end(bs, i) == field_end(bs, i + 1));
    }
}

/// What the castling field reads to, as in `CastlingRights::from_fen`.
pub open spec fn castling_field_val(bs: Seq<u8>, i: int, acc: u8) -> u8
    decreases bs.len() - i,
{
    crate::castling::cr_parse(bs, i, acc)
}

/// A run of decimal digits read as a number; anything else reads to
/// nothing.
pub open spec fn num_val(bs: Seq<u8>, i: int, acc: int) -> Option<int>
    decreases bs.len() - i,
{
    if i < 0 || i >= bs.len() {
        Some(acc)
    } else if 48 <= bs[i] <= 57 {
        num_val(bs, i + 1, acc * 10 + (bs[i] - 48))
    } else {
        None
    }
}

/// Exec field bounds as mathematical pairs.
pub open spec fn ints_of(s: Seq<(usize, usize)>) -> Seq<(int, int)> {
    s.map_values(|p: (usize, usize)| (p.0 as int, p.1 as int))
}

/// The scalar fields the reader takes from FEN text with fields `fs`:
/// whose turn it is, the castling rights, the en-passant target and the
/// clocks.  The piece placement is covered by the round-trip with the
/// writer.
pub open spec fn fen_scalars_ok(bs: Seq<u8>, b: Board) -> bool {
    let fs = fields_spec(bs, 0);
    &&& b.white_turn == (fs[1].1 - fs[1].0 == 1 && bs[fs[1].0] == 119)
    &&& b.castling.0 == castling_field_val(bs.subrange(fs[2].0, fs[2].1), 0, 0)
    &&& (fs[3].1 - fs[3].0 == 1 && bs[fs[3].0] == 45 ==> b.en_passant is None)
    &&& (fs[3].1 - fs[3].0 == 2 && 97 <= bs[fs[3].0] <= 104 && 49 <= bs[fs[3].0 + 1] <= 56
        ==> b.en_passant == Some(
        Tile((((bs[fs[3].0 + 1] - 49) * 8 + (bs[fs[3].0] - 97))) as u8),
    ))
    &&& (fs.len() >= 5 ==> num_val(bs.subrange(fs[4].0, fs[4].1), 0, 0) == Some(
        b.half_moves as int,
    ))
    &&& (fs.len() < 5 ==> b.half_moves == 0)
    &&& (fs.len() >= 6 ==> num_val(bs.subrange(fs[5].0, fs[5].1), 0, 0) == Some(
        b.full_move as int,
    ))
    &&& (fs.len() < 6 ==> b.full_move == 1)
}


/// The piece a placement byte names, upper case white, lower case black.
pub open spec fn piece_of_byte(ch: u8) -> Option<(Piece, bool)> {
    if ch == 80 {
        Some((Piece::Pawn, true))
    } else if ch == 78 {
        Some((Piece::Knight, true))
    } else if ch == 66 {
        Some((Piece::Bishop, true))
    } else if ch == 82 {
        Some((Piece::Rook, true))
    } else if ch == 81 {
        Some((Piece::Queen, true))
    } else if ch == 75 {
        Some((Piece::King, true))
    } else if ch == 112 {
        Some((Piece::Pawn, false))
    } else if ch == 110 {
        Some((Piece::Knight, false))
    } else if ch == 98 {
        Some((Piece::Bishop, false))
    } else if ch == 114 {
        Some((Piece::Rook, false))
    } else if ch == 113 {
        Some((Piece::Queen, false))
    } else if ch == 107 {
        Some((Piece::King, false))
    } else {
        None
    }
}

/// Scan the placement field from byte `i`, at the given rank-from-top
/// and file, carrying the squares read so far: digits skip files, a
/// slash closes a full rank, a letter puts its piece on a fresh square.
/// The scan yields the placement exactly when the field closes eight
/// full ranks.
pub open spec fn place_scan(
    bs: Seq<u8>,
    i: int,
    end: int,
    rank: int,
    file: int,
    acc: Map<int, (Piece, bool)>,
) -> Option<Map<int, (Piece, bool)>>
    decreases end - i,
{
    if i < 0 || i >= end || end > bs.len() {
        if file == 8 && rank == 7 {
            Some(acc)
        } else {
            None
        }
    } else if bs[i] == 47 {
        if file == 8 && rank < 7 {
            place_scan(bs, i + 1, end, rank + 1, 0, acc)
        } else {
            None
        }
    } else if 49 <= bs[i] <= 56 {
        if file + (bs[i] - 48) <= 8 {
            place_scan(bs, i + 1, end, rank, file + (bs[i] - 48), acc)
        } else {
            None
        }
    } else if file >= 8 {
        None
    } else {
        match piece_of_byte(bs[i]) {
            None => None,
            Some((p, c)) => {
                let sq = (7 - rank) * 8 + file;
                if acc.dom().contains(sq) {
                    None
                } else {
                    place_scan(bs, i + 1, end, rank, file + 1, acc.insert(sq, (p, c)))
                }
            },
        }
    }
}

/// The placement of a board as a map from square index to piece and
/// colour.
pub open spec fn board_map(b: Board) -> Map<int, (Piece, bool)> {
    Map::new(
        |k: int| 0 <= k < 64 && b.piece_color_at(Tile(k as u8)) is Some,
        |k: int| b.piece_color_at(Tile(k as u8))->Some_0,
    )
}

/// The castling field reads cleanly: king and queen letters until a
/// dash, which ignores the rest, or the field's end.
pub open spec fn castle_field_wf(bs: Seq<u8>, i: int, end: int) -> bool
    decreases end - i,
{
    if i < 0 || i >= end || end > bs.len() {
        true
    } else if bs[i] == 45 {
        true
    } else if bs[i] == 75 || bs[i] == 81 || bs[i] == 107 || bs[i] == 113 {
        castle_field_wf(bs, i + 1, end)
    } else {
        false
    }
}

/// The text is well-formed FEN, field by field, exactly when the reader
/// accepts it: at least four fields; a placement scan that closes eight
/// full ranks without a bad letter or a doubled square; clean castling
/// letters; a dash or a real square as the en-passant field; and, where
/// present, clock fields of at most nine digits, the half-move clock at
/// most 255.  The side-to-move field is never rejected: anything but a
/// lone `w` reads as black, as the reader defines it.
pub open spec fn fen_wf(bs: Seq<u8>) -> bool {
    let fs = fields_spec(bs, 0);
    &&& fs.len() >= 4
    &&& place_scan(bs, fs[0].0, fs[0].1, 0, 0, Map::empty()) is Some
    &&& castle_field_wf(bs, fs[2].0, fs[2].1)
    &&& ((fs[3].1 - fs[3].0 == 1 && bs[fs[3].0] == 45) || (fs[3].1 - fs[3].0 == 2 && 97 <= bs[fs[3].0] <= 104 && 49 <= bs[fs[3].0 + 1] <= 56))
    &&& (fs.len() >= 5 ==> fs[4].1 - fs[4].0 <= 9 && (num_val(bs.subrange(fs[4].0, fs[4].1), 0, 0) matches Some(v) && v <= 255))
    &&& (fs.len() >= 6 ==> fs[5].1 - fs[5].0 <= 9 && num_val(bs.subrange(fs[5].0, fs[5].1), 0, 0) is Some)
}

/// Ten to the `n`th.
pub open spec fn pow10(n: int) -> int
    decreases n,
{
    if n <= 0 {
        1
    } else {
        10 * pow10(n - 1)
    }
}

/// Powers of ten grow with the exponent.
proof fn lemma_pow10_le(a: int, b: int)
    requires
        0 <= a <= b,
    ensures
        pow10(a) <= pow10(b),
    decreases b - a,
{
    if a < b {
        lemma_pow10_le(a, b - 1);
        assert(pow10(b) == 10 * pow10(b - 1));
        assert(pow10(b - 1) >= 1) by {
            lemma_pow10_pos(b - 1);
        }
    }
}

/// Powers of ten are positive, and the eighth is a hundred million.
proof fn lemma_pow10_pos(n: int)
    ensures
        pow10(n) >= 1,
    decreases n,
{
    if n > 0 {
        lemma_pow10_pos(n - 1);
    }
}

proof fn lemma_pow10_vals()
    ensures
        pow10(8) == 100_000_000,
{
    assert(pow10(0) == 1);
    assert(pow10(1) == 10);
    assert(pow10(2) == 100);
    assert(pow10(3) == 1000);
    assert(pow10(4) == 10000);
    assert(pow10(5) == 100000);
    assert(pow10(6) == 1000000);
    assert(pow10(7) == 10000000);
    assert(pow10(8) == 100000000);
}

impl Board {
    /// Read a position from FEN text: eight ranks of piece placement,
    /// the side to move, the castling rights, the en-passant target and
    /// the optional clocks.  It succeeds exactly on well-formed text
    /// (`fen_wf`); a malformed field is reported as an error naming it.
    /// On success every field of the board is fixed: the placement is
    /// the scan of the placement field, the scalars follow
    /// `fen_scalars_ok`, and the histories start empty.
    pub fn new_from_fen(fen: &str) -> (r: Result<Board, String>)
        ensures
            r is Ok <==> fen_wf(fen.spec_bytes()),
            r matches Ok(b) ==> {
                let fs = fields_spec(fen.spec_bytes(), 0);
                &&& b.wf()
                &&& b.history@ == Seq::<(crate::moves::Move, String)>::empty()
                &&& b.repetition_history@ == Seq::<u64>::empty()
                &&& b.white_cache is None
                &&& b.black_cache is None
                &&& fs.len() >= 4
                &&& place_scan(fen.spec_bytes(), fs[0].0, fs[0].1, 0, 0, Map::empty()) == Some(
                    board_map(b),
                )
                &&& fen_scalars_ok(fen.spec_bytes(), b)
            },
    {
        let bs = fen.as_bytes_vec();
        let n = bs.len();
        // split into whitespace-separated fields
        let mut fields: Vec<(usize, usize)> = Vec::new();
        let mut i: usize = 0;
        while i < n
            invariant
                n == bs@.len(),
                bs@ == fen.spec_bytes(),
                i <= n,
                forall|k: int|
                    0 <= k < fields@.len() ==> (#[trigger] fields@[k]).0 < fields@[k].1 <= n,
                fields_spec(bs@, 0) =~= ints_of(fields@) + fields_spec(bs@, i as int),
            decreases n - i,
        {
            if bs[i] == 32u8 {
                i = i + 1;
            } else {
                let start = i;
                while i < n && bs[i] != 32u8
                    invariant
                        n == bs@.len(),
                        start <= i <= n,
                        field_end(bs@, start as int) == field_end(bs@, i as int),
                    decreases n - i,
                {
                    i = i + 1;
                }
                proof {
                    assert(field_end(bs@, i as int) == i);
                    assert(field_end(bs@, start as int) == i);
                    assert(fields_spec(bs@, start as int) =~= seq![(start as int, i as int)]
                        + fields_spec(bs@, i as int));
                }
                let ghost pre = fields@;
                fields.push((start, i));
                proof {
                    assert(ints_of(fields@) =~= ints_of(pre) + seq![(start as int, i as int)]);
                    assert(fields_spec(bs@, 0) =~= ints_of(fields@) + fields_spec(bs@, i as int));
                }
            }
        }
        proof {
            assert(fields_spec(bs@, n as int) =~= Seq::<(int, int)>::empty());
            assert(fields_spec(bs@, 0) =~= ints_of(fields@));
            assert(fields_spec(bs@, 0).len() == fields@.len());
            assert forall|k: int| 0 <= k < fields@.len() implies #[trigger] fields_spec(bs@, 0)[k]
                == ((fields@[k].0 as int, fields@[k].1 as int)) by {
                assert(ints_of(fields@)[k] == (fields@[k].0 as int, fields@[k].1 as int));
            }
        }
        if fields.len() < 4 {
            return Err("FEN is missing a field".to_owned());
        }
        let mut board = Board::new_empty();
        // piece placement
        let (p0, p1) = fields[0];
        let ghost full_scan = place_scan(bs@, p0 as int, p1 as int, 0, 0, Map::empty());
        let mut rank_idx: u8 = 0;
        let mut file: u8 = 0;
        let mut j: usize = p0;
        proof {
            assert(board_map(board) =~= Map::<int, (Piece, bool)>::empty()) by {
                assert forall|k: int|
                    0 <= k < 64 implies #[trigger] board.piece_color_at(Tile(k as u8)) is None by {
                    crate::bits::lemma_bit_zero(k as u8 as u64);
                }
            }
        }
        while j < p1
            invariant
                p1 <= bs@.len(),
                p0 <= j <= p1,
                rank_idx <= 7,
                file <= 8,
                board.wf(),
                board.history@ == Seq::<(crate::moves::Move, String)>::empty(),
                board.repetition_history@ == Seq::<u64>::empty(),
                board.white_cache is None,
                board.black_cache is None,
                board.white_turn,
                board.half_moves == 0,
                board.full_move == 1,
                bs@ == fen.spec_bytes(),
                fields_spec(bs@, 0).len() >= 4,
                fields_spec(bs@, 0)[0] == (p0 as int, p1 as int),
                full_scan == place_scan(bs@, p0 as int, p1 as int, 0, 0, Map::empty()),
                full_scan == place_scan(
                    bs@,
                    j as int,
                    p1 as int,
                    rank_idx as int,
                    file as int,
                    board_map(board),
                ),
            decreases p1 - j,
        {
            let ch = bs[j];
            if ch == 47u8 {
                if file != 8 {
                    proof {
                        assert(full_scan is None);
                    }
                    return Err("FEN rank is incomplete".to_owned());
                }
                if rank_idx >= 7 {
                    proof {
                        assert(full_scan is None);
                    }
                    return Err("FEN has too many ranks".to_owned());
                }
                rank_idx = rank_idx + 1;
                file = 0;
            } else if 49u8 <= ch && ch <= 56u8 {
                let skip = ch - 48;
                if file + skip > 8 {
                    proof {
                        assert(full_scan is None);
                    }
                    return Err("FEN rank is too long".to_owned());
                }
                file = file + skip;
            } else {
                if file >= 8 {
                    proof {
                        assert(full_scan is None);
                    }
                    return Err("FEN rank is too long".to_owned());
                }
                let lower = if ch >= 65u8 && ch <= 90u8 {
                    ch + 32
                } else {
                    ch
                };
                let is_white = ch >= 65u8 && ch <= 90u8;
                let piece = match lower {
                    112u8 => Piece::Pawn,
                    110u8 => Piece::Knight,
                    98u8 => Piece::Bishop,
                    114u8 => Piece::Rook,
                    113u8 => Piece::Queen,
                    107u8 => Piece::King,
                    _ => {
                        proof {
                            assert(piece_of_byte(bs@[j as int]) is None);
                            assert(full_scan is None);
                        }
                        return Err("FEN has an invalid piece letter".to_owned());
                    },
                };
                proof {
                    assert(piece_of_byte(bs@[j as int]) == Some((piece, is_white)));
                }
                let rank = 7 - rank_idx;
                let tile = Tile(rank * 8 + file);
                let ghost sq = (7 - rank_idx as int) * 8 + file as int;
                proof {
                    assert(sq == tile.0 as int);
                    assert(board_map(board).dom().contains(sq) <==> bit64(
                        board.occ(),
                        tile.0 as u64,
                    )) by {
                        if board.piece_color_at(tile) is Some {
                            if board.white.piece_at(tile) is Some {
                                crate::player::lemma_piece_at_some(board.white, tile);
                            } else {
                                crate::player::lemma_piece_at_some(board.black, tile);
                            }
                        } else {
                            crate::player::lemma_piece_at_none(board.white, tile);
                            crate::player::lemma_piece_at_none(board.black, tile);
                        }
                    }
                }
                let occ = board.occupied();
                if occ.get_bit(tile) {
                    proof {
                        assert(board_map(board).dom().contains(sq));
                        assert(full_scan is None);
                    }
                    return Err("FEN places two pieces on one square".to_owned());
                }
                let ghost pre = board;
                if is_white {
                    proof {
                        crate::player::lemma_no_bit_piece_none(pre.white, tile);
                    }
                    board.white.place_piece(piece, tile);
                } else {
                    proof {
                        crate::player::lemma_no_bit_piece_none(pre.black, tile);
                    }
                    board.black.place_piece(piece, tile);
                }
                proof {
                    assert forall|k: u64| !(#[trigger] bit64(board.white.pieces.0, k)
                        && #[trigger] bit64(board.black.pieces.0, k)) by {
                        crate::bits::lemma_bit_single(tile.0 as u64, k);
                        if bit64(board.white.pieces.0, k) && bit64(board.black.pieces.0, k) {
                            assert(!(bit64(pre.white.pieces.0, k) && bit64(
                                pre.black.pieces.0,
                                k,
                            )));
                        }
                    }
                    if is_white {
                        crate::player::lemma_placed_wf(pre.white, piece, tile);
                    } else {
                        crate::player::lemma_no_bit_piece_none(pre.white, tile);
                        crate::player::lemma_placed_wf(pre.black, piece, tile);
                    }
                    assert(board.piece_color_at(tile) == Some((piece, is_white)));
                    assert(board_map(board) =~= board_map(pre).insert(sq, (piece, is_white))) by {
                        assert forall|k: int|
                            0 <= k < 64 && k != sq implies #[trigger] board.piece_color_at(
                            Tile(k as u8),
                        ) == pre.piece_color_at(Tile(k as u8)) by {
                            let t2 = Tile(k as u8);
                            if is_white {
                                assert(board.white.piece_at(t2) == pre.white.piece_at(t2));
                            } else {
                                assert(board.black.piece_at(t2) == pre.black.piece_at(t2));
                            }
                        }
                    }
                }
                file = file + 1;
            }
            j = j + 1;
        }
        if file != 8 || rank_idx != 7 {
            return Err("FEN does not hold eight full ranks".to_owned());
        }
        proof {
            assert(full_scan == Some(board_map(board)));
        }
        let ghost placed = board;
        // side to move
        let (t0, t1) = fields[1];
        board.white_turn = t1 - t0 == 1 && bs[t0] == 119u8;
        // castling rights
        let (c0, c1) = fields[2];
        let ghost csub = bs@.subrange(c0 as int, c1 as int);
        let mut rights: u8 = 0;
        let mut ci: usize = c0;
        while ci < c1
            invariant
                c1 <= bs@.len(),
                c0 <= ci <= c1,
                rights < 16,
                csub == bs@.subrange(c0 as int, c1 as int),
                bs@ == fen.spec_bytes(),
                fields_spec(bs@, 0).len() >= 4,
                fields_spec(bs@, 0)[2] == (c0 as int, c1 as int),
                crate::castling::cr_parse(csub, 0, 0) == crate::castling::cr_parse(
                    csub,
                    ci - c0,
                    rights,
                ),
                castle_field_wf(bs@, c0 as int, c1 as int) == castle_field_wf(
                    bs@,
                    ci as int,
                    c1 as int,
                ),
            decreases c1 - ci,
        {
            let ch = bs[ci];
            proof {
                crate::bits::lemma_u8_or_bound(rights, 8);
                crate::bits::lemma_u8_or_bound(rights, 4);
                crate::bits::lemma_u8_or_bound(rights, 2);
                crate::bits::lemma_u8_or_bound(rights, 1);
                assert(csub[ci - c0] == bs@[ci as int]);
            }
            if ch == 45u8 {
                rights = 0;
                ci = c1;
                proof {
                    assert(crate::castling::cr_parse(csub, 0, 0) == 0);
                }
            } else {
                if ch == 75u8 {
                    rights = rights | 1;
                } else if ch == 81u8 {
                    rights = rights | 2;
                } else if ch == 107u8 {
                    rights = rights | 4;
                } else if ch == 113u8 {
                    rights = rights | 8;
                } else {
                    proof {
                        assert(!castle_field_wf(bs@, ci as int, c1 as int));
                    }
                    return Err("FEN has an invalid castling letter".to_owned());
                }
                proof {
                    assert(rights | 0u8 == rights) by (bit_vector);
                }
                ci = ci + 1;
            }
        }
        board.castling = CastlingRights(rights);
        proof {
            assert(crate::castling::cr_parse(csub, c1 - c0, rights) == rights);
        }
        // en-passant target
        let (e0, e1) = fields[3];
        if e1 - e0 == 1 && bs[e0] == 45u8 {
            board.en_passant = None;
        } else {
            if e1 - e0 != 2 {
                return Err("FEN has an invalid en-passant square".to_owned());
            }
            let fb = bs[e0];
            let rb = bs[e0 + 1];
            if fb < 97u8 || fb > 104u8 || rb < 49u8 || rb > 56u8 {
                return Err("FEN has an invalid en-passant square".to_owned());
            }
            let tile = Tile((rb - 49) * 8 + (fb - 97));
            board.en_passant = Some(tile);
        }
        // half-move clock
        if fields.len() >= 5 {
            let (h0, h1) = fields[4];
            let ghost hsub = bs@.subrange(h0 as int, h1 as int);
            if h1 - h0 > 9 {
                proof {
                    assert(fields_spec(bs@, 0)[4].1 - fields_spec(bs@, 0)[4].0 > 9);
                }
                return Err("FEN half-move count is too long".to_owned());
            }
            let mut val: u32 = 0;
            let mut hi: usize = h0;
            while hi < h1
                invariant
                    h1 <= bs@.len(),
                    h0 <= hi <= h1,
                    h1 - h0 <= 9,
                    val < pow10(hi - h0),
                    hsub == bs@.subrange(h0 as int, h1 as int),
                    bs@ == fen.spec_bytes(),
                    fields_spec(bs@, 0).len() >= 5,
                    fields_spec(bs@, 0)[4] == (h0 as int, h1 as int),
                    num_val(hsub, 0, 0) == num_val(hsub, hi - h0, val as int),
                decreases h1 - hi,
            {
                let ch = bs[hi];
                proof {
                    assert(hsub[hi - h0] == bs@[hi as int]);
                    lemma_pow10_le(hi - h0, 8);
                    lemma_pow10_vals();
                }
                if ch < 48u8 || ch > 57u8 {
                    proof {
                        assert(num_val(hsub, hi - h0, val as int) is None);
                        assert(num_val(hsub, 0, 0) is None);
                    }
                    return Err("FEN has an invalid half-move count".to_owned());
                }
                let d = (ch - 48) as u32;
                val = val * 10 + d;
                hi = hi + 1;
            }
            proof {
                assert(num_val(hsub, h1 - h0, val as int) == Some(val as int));
            }
            if val > 255 {
                return Err("FEN half-move count is too large".to_owned());
            }
            board.half_moves = val as u8;
        }
        // full-move number
        if fields.len() >= 6 {
            let (f0, f1) = fields[5];
            let ghost fsub = bs@.subrange(f0 as int, f1 as int);
            if f1 - f0 > 9 {
                return Err("FEN full-move count is too long".to_owned());
            }
            let mut val: u32 = 0;
            let mut fi: usize = f0;
            while fi < f1
                invariant
                    f1 <= bs@.len(),
                    f0 <= fi <= f1,
                    f1 - f0 <= 9,
                    val < pow10(fi - f0),
                    fsub == bs@.subrange(f0 as int, f1 as int),
                    bs@ == fen.spec_bytes(),
                    fields_spec(bs@, 0).len() >= 6,
                    fields_spec(bs@, 0)[5] == (f0 as int, f1 as int),
                    num_val(fsub, 0, 0) == num_val(fsub, fi - f0, val as int),
                decreases f1 - fi,
            {
                let ch = bs[fi];
                proof {
                    assert(fsub[fi - f0] == bs@[fi as int]);
                    lemma_pow10_le(fi - f0, 8);
                    lemma_pow10_vals();
                }
                if ch < 48u8 || ch > 57u8 {
                    proof {
                        assert(num_val(fsub, fi - f0, val as int) is None);
                        assert(num_val(fsub, 0, 0) is None);
                    }
                    return Err("FEN has an invalid full-move count".to_owned());
                }
                let d = (ch - 48) as u32;
                val = val * 10 + d;
                fi = fi + 1;
            }
            proof {
                assert(num_val(fsub, f1 - f0, val as int) == Some(val as int));
            }
            board.full_move = val;
        }
        proof {
            assert(board_map(board) =~= board_map(placed)) by {
                assert(forall|k: int|
                    0 <= k < 64 ==> #[trigger] board.piece_color_at(Tile(k as u8))
                        == placed.piece_color_at(Tile(k as u8)));
            }
        }
        Ok(board)
    }
}




/// A per-square legal list holds a move to `to` exactly when some legal
/// move from that square reaches `to`.
proof fn lemma_list_reaches(b: Board, t: Tile, to: Tile, ms: Seq<Move>)
    requires
        b.wf(),
        t.wf(),
        b.half_moves < 255,
        b.full_move < 0xFFFF_FFFFu32,
        b.player_of(b.white_turn).piece_at(t) is Some,
        forall|mm: Move|
            #[trigger] ms.contains(mm) <==> crate::board::movegen::legal_from_one(
                b,
                b.white_turn,
                t,
                mm,
            ),
    ensures
        (exists|i: int| 0 <= i < ms.len() && ms[i].from == t && ms[i].to == to) <==> (exists|
            mm: Move,
        |
            #[trigger] crate::board::movegen::legal_from_one(b, b.white_turn, t, mm) && mm.to
                == to),
{
    let w = b.white_turn;
    if exists|i: int| 0 <= i < ms.len() && ms[i].from == t && ms[i].to == to {
        let i = choose|i: int| 0 <= i < ms.len() && ms[i].from == t && ms[i].to == to;
        assert(ms.contains(ms[i]));
        assert(crate::board::movegen::legal_from_one(b, w, t, ms[i]));
    }
    if exists|mm: Move|
        #[trigger] crate::board::movegen::legal_from_one(b, w, t, mm) && mm.to == to {
        let mm = choose|mm: Move|
            #[trigger] crate::board::movegen::legal_from_one(b, w, t, mm) && mm.to == to;
        crate::board::movegen::lemma_pseudo_fits(crate::board::movegen::with_turn(b, w), t, mm);
        assert(mm.from == t);
        assert(ms.contains(mm));
        let i = choose|i: int| 0 <= i < ms.len() && ms[i] == mm;
        assert(ms[i].from == t && ms[i].to == to);
    }
}

/// The algebraic letter of a piece kind; a pawn defaults to its knight
/// letter, which no caller uses.
pub open spec fn piece_letter(p: Piece) -> char {
    match p {
        Piece::Pawn => 'N',
        Piece::Knight => 'N',
        Piece::Bishop => 'B',
        Piece::Rook => 'R',
        Piece::Queen => 'Q',
        Piece::King => 'K',
    }
}

/// Another piece of the move's kind, of the side to move, stands on `t`
/// and can also legally reach the move's destination.
pub open spec fn other_reaches(b: Board, m: Move, t: Tile) -> bool {
    &&& t.wf()
    &&& t != m.from
    &&& bit64(b.player_of(b.white_turn).bb[m.piece.spec_index()].0, t.0 as u64)
    &&& exists|mm: Move|
        #[trigger] crate::board::movegen::legal_from_one(b, b.white_turn, t, mm) && mm.to == m.to
}

/// Some other piece of the same kind reaches the destination.
pub open spec fn disambig_needed(b: Board, m: Move) -> bool {
    exists|t: Tile| #[trigger] other_reaches(b, m, t)
}

/// Some such piece shares the source's file.
pub open spec fn shares_file(b: Board, m: Move) -> bool {
    exists|t: Tile| #[trigger] other_reaches(b, m, t) && t.spec_file() == m.from.spec_file()
}

/// Some such piece shares the source's rank.
pub open spec fn shares_rank(b: Board, m: Move) -> bool {
    exists|t: Tile| #[trigger] other_reaches(b, m, t) && t.spec_rank() == m.from.spec_rank()
}

/// The file letter of a square's file index.
pub open spec fn file_char(f: int) -> char {
    if f == 0 {
        'a'
    } else if f == 1 {
        'b'
    } else if f == 2 {
        'c'
    } else if f == 3 {
        'd'
    } else if f == 4 {
        'e'
    } else if f == 5 {
        'f'
    } else if f == 6 {
        'g'
    } else {
        'h'
    }
}

/// The disambiguation prefix of a non-pawn move: the piece letter, then
/// the source file where another same-kind piece also reaches the
/// destination, the source rank where the file would not settle it, or
/// both where neither alone would.
pub open spec fn disambig_chars(b: Board, m: Move) -> Seq<char> {
    seq![piece_letter(m.piece)] + (if !disambig_needed(b, m) {
        Seq::<char>::empty()
    } else if !shares_file(b, m) {
        seq![file_char(m.from.spec_file() as int)]
    } else if !shares_rank(b, m) {
        seq![digit_char(m.from.spec_rank() + 1)]
    } else {
        seq![file_char(m.from.spec_file() as int), digit_char(m.from.spec_rank() + 1)]
    })
}


/// The check suffix of a move: `#` when applying it mates the other
/// side, `+` when it checks, nothing otherwise.
pub open spec fn suffix_chars(b: Board, m: Move) -> Seq<char> {
    let after = crate::board::movement::applied_pos(b, m);
    if crate::board::check_mate::checkmate_spec(after, !b.white_turn) {
        seq!['#']
    } else if after.in_check(!b.white_turn) {
        seq!['+']
    } else {
        Seq::<char>::empty()
    }
}

/// The algebraic notation of a move of the side to move: the castling
/// words, or the piece letter and disambiguation, the pawn file and `x`
/// on capture, the destination square, a promotion suffix and the check
/// suffix.
pub open spec fn san_head_chars(b: Board, m: Move) -> Seq<char> {
    (if m.piece == Piece::King {
        seq!['K']
    } else if m.piece == Piece::Pawn {
        Seq::<char>::empty()
    } else {
        disambig_chars(b, m)
    }) + (if m.capture is Some {
        (if m.piece == Piece::Pawn {
            seq![file_char(m.from.spec_file() as int)]
        } else {
            Seq::<char>::empty()
        }) + seq!['x']
    } else {
        Seq::<char>::empty()
    }) + seq![m.to.spec_file_char(), m.to.spec_rank_char()] + (match m.promoted_to {
        Some(p) => seq!['=', piece_letter(p)],
        None => Seq::<char>::empty(),
    })
}

pub open spec fn san_chars(b: Board, m: Move) -> Seq<char> {
    if m.piece == Piece::King && (m.from.0 == 4 && m.to.0 == 6 || m.from.0 == 60 && m.to.0 == 62) {
        seq!['O', '-', 'O']
    } else if m.piece == Piece::King && (m.from.0 == 4 && m.to.0 == 2 || m.from.0 == 60 && m.to.0
        == 58) {
        seq!['O', '-', 'O', '-', 'O']
    } else {
        san_head_chars(b, m) + suffix_chars(b, m)
    }
}

/// Append one character of algebraic-notation text.
fn push_san_char(s: &mut String, c: char)
    requires
        c == 'x' || c == '=' || c == '+' || c == '#' || c == '.' || c == ',' || c == '\n' || c
            == '*' || c == 'O',
    ensures
        final(s)@ == old(s)@ + seq![c],
{
    let lit: &str = match c {
        'x' => "x",
        '=' => "=",
        '+' => "+",
        '#' => "#",
        '.' => ".",
        ',' => ",",
        '\n' => "\n",
        '*' => "*",
        _ => "O",
    };
    proof {
        reveal_strlit("x");
        reveal_strlit("=");
        reveal_strlit("+");
        reveal_strlit("#");
        reveal_strlit(".");
        reveal_strlit(",");
        reveal_strlit("\n");
        reveal_strlit("*");
        reveal_strlit("O");
        assert(lit@ =~= seq![c]);
    }
    s.append(lit);
    proof {
        assert(s@ =~= old(s)@ + seq![c]);
    }
}

impl Board {
    /// The disambiguation prefix of a non-pawn, non-king move: the piece
    /// letter, and the source file and/or rank where another piece of
    /// the same kind could also legally reach the destination.  Pawns
    /// and kings never need one.
    #[verifier::rlimit(100)]
    pub fn get_disambig(&self, mov: &Move) -> (r: Option<String>)
        requires
            self.wf(),
            self.kings_ok(),
            self.half_moves < 255,
            self.full_move < 0xFFFF_FFFFu32,
            mov.wf(),
            self.player_of(self.white_turn).piece_at(mov.from) == Some(mov.piece),
        ensures
            mov.piece == Piece::Pawn || mov.piece == Piece::King ==> r is None,
            mov.piece != Piece::Pawn && mov.piece != Piece::King ==> (r matches Some(s) && s@
                == disambig_chars(*self, *mov)),
    {
        let piece = mov.piece;
        let from = mov.from;
        let to = mov.to;
        let is_pawn_or_king = match piece {
            Piece::Pawn | Piece::King => true,
            _ => false,
        };
        if is_pawn_or_king {
            return None;
        }
        let mut s = String::new();
        let letter = match piece.to_san_char() {
            Some(c) => c,
            None => 'N',
        };
        proof {
            assert(is_fen_char(letter));
            assert(letter == piece_letter(piece));
        }
        push_fen_char(&mut s, letter);
        let (player, _) = self.current_players();
        let kind_board = player.bb[piece.to_usize()];
        proof {
            crate::player::lemma_piece_at_some(self.player_of(self.white_turn), mov.from);
            assert(bit64(kind_board.0, mov.from.0 as u64));
        }
        if kind_board.count_ones() <= 1 {
            proof {
                assert forall|t: Tile| !other_reaches(*self, *mov, t) by {
                    if other_reaches(*self, *mov, t) {
                        if (t.0 as u64) < (mov.from.0 as u64) {
                            crate::bits::lemma_pop_below_two_bits(
                                kind_board.0,
                                t.0 as u64,
                                mov.from.0 as u64,
                                64,
                            );
                        } else {
                            crate::bits::lemma_pop_below_two_bits(
                                kind_board.0,
                                mov.from.0 as u64,
                                t.0 as u64,
                                64,
                            );
                        }
                    }
                }
                assert(s@ =~= disambig_chars(*self, *mov));
            }
            return Some(s);
        }
        let (from_file, from_rank) = from.get_coords();
        let mut same_file = false;
        let mut same_rank = false;
        let mut any_other = false;
        let ghost mut any_w: Tile = from;
        let ghost mut sf_w: Tile = from;
        let ghost mut sr_w: Tile = from;
        let ghost orig = kind_board.0;
        let mut it = kind_board.iter();
        loop
            invariant
                self.wf(),
                self.kings_ok(),
                self.half_moves < 255,
                self.full_move < 0xFFFF_FFFFu32,
                mov.wf(),
                piece == mov.piece,
                from == mov.from,
                to == mov.to,
                piece != Piece::Pawn && piece != Piece::King,
                self.player_of(self.white_turn).piece_at(mov.from) == Some(mov.piece),
                orig == self.player_of(self.white_turn).bb[piece.spec_index()].0,
                from_file == from.spec_file(),
                from_rank == from.spec_rank(),
                forall|k: u64| #[trigger] bit64(it.0, k) ==> bit64(orig, k),
                any_other ==> other_reaches(*self, *mov, any_w),
                same_file ==> other_reaches(*self, *mov, sf_w) && sf_w.spec_file()
                    == from.spec_file(),
                same_rank ==> other_reaches(*self, *mov, sr_w) && sr_w.spec_rank()
                    == from.spec_rank(),
                !any_other ==> forall|t: Tile| #[trigger]
                    other_reaches(*self, *mov, t) ==> bit64(it.0, t.0 as u64),
                !same_file ==> forall|t: Tile| #[trigger]
                    other_reaches(*self, *mov, t) && t.spec_file() == from.spec_file() ==> bit64(
                        it.0,
                        t.0 as u64,
                    ),
                !same_rank ==> forall|t: Tile| #[trigger]
                    other_reaches(*self, *mov, t) && t.spec_rank() == from.spec_rank() ==> bit64(
                        it.0,
                        t.0 as u64,
                    ),
            ensures
                any_other == disambig_needed(*self, *mov),
                same_file == shares_file(*self, *mov),
                same_rank == shares_rank(*self, *mov),
            decreases crate::bits::popcnt64(it.0),
        {
            let ghost prev = it.0;
            let next = it.next();
            match next {
                None => {
                    proof {
                        if !any_other {
                            assert forall|t: Tile| !#[trigger] other_reaches(*self, *mov, t) by {
                                if other_reaches(*self, *mov, t) {
                                    crate::bits::lemma_bit_zero(t.0 as u64);
                                }
                            }
                        }
                        if !same_file {
                            assert forall|t: Tile| !(#[trigger] other_reaches(*self, *mov, t)
                                && t.spec_file() == from.spec_file()) by {
                                if other_reaches(*self, *mov, t) && t.spec_file()
                                    == from.spec_file() {
                                    crate::bits::lemma_bit_zero(t.0 as u64);
                                }
                            }
                        }
                        if !same_rank {
                            assert forall|t: Tile| !(#[trigger] other_reaches(*self, *mov, t)
                                && t.spec_rank() == from.spec_rank()) by {
                                if other_reaches(*self, *mov, t) && t.spec_rank()
                                    == from.spec_rank() {
                                    crate::bits::lemma_bit_zero(t.0 as u64);
                                }
                            }
                        }
                    }
                    break ;
                },
                Some(t) => {
                    proof {
                        crate::bits::lemma_pop_below_except(it.0, prev, t.0 as u64, 64);
                    }
                    if t.to_u8() != from.to_u8() {
                        proof {
                            let w = self.white_turn;
                            assert(self.player_of(w).some_kind_has(t.0 as u64));
                            assert(bit64(self.player_of(w).pieces.0, t.0 as u64));
                            assert(self.piece_color_at(t) matches Some((pp, cc)) && cc == w) by {
                                if w {
                                    assert(self.white.piece_at(t) is Some);
                                } else {
                                    assert(self.black.piece_at(t) is Some);
                                    if self.white.piece_at(t) is Some {
                                        crate::player::lemma_piece_at_some(self.white, t);
                                        assert(false);
                                    }
                                }
                            }
                        }
                        let mut ms = crate::move_list::MoveList::new();
                        self.generate_legal_moves_from(t, &mut ms);
                        let c = ms.contains_move(t, to);
                        proof {
                            lemma_list_reaches(*self, t, to, ms@);
                            assert(c == other_reaches(*self, *mov, t));
                        }
                        if c {
                            any_other = true;
                            proof {
                                any_w = t;
                            }
                            let (f, rk) = t.get_coords();
                            if f == from_file {
                                same_file = true;
                                proof {
                                    sf_w = t;
                                }
                            }
                            if rk == from_rank {
                                same_rank = true;
                                proof {
                                    sr_w = t;
                                }
                            }
                        }
                    } else {
                        proof {
                            assert(t == mov.from);
                            assert(!other_reaches(*self, *mov, t));
                        }
                    }
                },
            }
        }
        if !any_other {
            proof {
                assert(s@ =~= disambig_chars(*self, *mov));
            }
            return Some(s);
        }
        if !same_file {
            let fc = file_char_of(from_file);
            push_fen_char(&mut s, fc);
        } else if !same_rank {
            let rc = rank_char_of(from_rank);
            push_fen_char(&mut s, rc);
        } else {
            let fc = file_char_of(from_file);
            push_fen_char(&mut s, fc);
            let rc = rank_char_of(from_rank);
            push_fen_char(&mut s, rc);
        }
        proof {
            assert(s@ =~= disambig_chars(*self, *mov));
        }
        Some(s)
    }

    /// The notation of the move before its check suffix: piece letter or
    /// disambiguation, the pawn's file and `x` on capture, the
    /// destination, and any promotion suffix.
    #[verifier::rlimit(60)]
    fn san_head(&self, mov: &Move) -> (r: String)
        requires
            self.wf(),
            self.kings_ok(),
            self.half_moves < 255,
            self.full_move < 0xFFFF_FFFFu32,
            mov.wf(),
            self.player_of(self.white_turn).piece_at(mov.from) == Some(mov.piece),
        ensures
            r@ == san_head_chars(*self, *mov),
    {
        let mut s = String::new();
        let is_pawn = match mov.piece {
            Piece::Pawn => true,
            _ => false,
        };
        let is_king = match mov.piece {
            Piece::King => true,
            _ => false,
        };
        if is_king {
            push_fen_char(&mut s, 'K');
        } else if !is_pawn {
            match self.get_disambig(mov) {
                Some(d) => {
                    s.append(d.as_str());
                },
                None => {},
            }
        }
        if mov.capture.is_some() {
            if is_pawn {
                let (ff, _) = mov.from.get_coords();
                let fc = file_char_of(ff);
                push_fen_char(&mut s, fc);
            }
            push_san_char(&mut s, 'x');
        }
        let nm = mov.to.name();
        s.append(nm.as_str());
        match mov.promoted_to {
            Some(p) => {
                push_san_char(&mut s, '=');
                let c = match p.to_san_char() {
                    Some(c) => c,
                    None => 'N',
                };
                proof {
                    assert(is_fen_char(c));
                    assert(c == piece_letter(p));
                }
                push_fen_char(&mut s, c);
            },
            None => {},
        }
        proof {
            assert(s@ =~= san_head_chars(*self, *mov));
        }
        s
    }

    /// Render the move in standard algebraic notation: castling as
    /// `O-O`/`O-O-O`, otherwise the piece letter with any needed
    /// disambiguation, the pawn's file and `x` on capture, the
    /// destination, a promotion suffix, and `#` or `+` when applying the
    /// move mates or checks the other side.
    #[verifier::rlimit(100)]
    pub fn move_to_san(&self, mov: &Move) -> (r: String)
        requires
            self.wf(),
            self.kings_ok(),
            self.half_moves < 254,
            self.full_move < 0xFFFF_FFFEu32,
            mov.wf(),
            crate::board::movement::move_fits(*self, *mov),
            mov.promoted_to != Some(Piece::King),
            mov.capture != Some(Piece::King),
        ensures
            r@ == san_chars(*self, *mov),
    {
        let is_king = match mov.piece {
            Piece::King => true,
            _ => false,
        };
        if is_king {
            if (mov.from.to_u8() == 4 && mov.to.to_u8() == 6) || (mov.from.to_u8() == 60
                && mov.to.to_u8() == 62) {
                let mut s = String::new();
                push_san_char(&mut s, 'O');
                push_fen_char(&mut s, '-');
                push_san_char(&mut s, 'O');
                proof {
                    assert(s@ =~= seq!['O', '-', 'O']);
                }
                return s;
            }
            if (mov.from.to_u8() == 4 && mov.to.to_u8() == 2) || (mov.from.to_u8() == 60
                && mov.to.to_u8() == 58) {
                let mut s = String::new();
                push_san_char(&mut s, 'O');
                push_fen_char(&mut s, '-');
                push_san_char(&mut s, 'O');
                push_fen_char(&mut s, '-');
                push_san_char(&mut s, 'O');
                proof {
                    assert(s@ =~= seq!['O', '-', 'O', '-', 'O']);
                }
                return s;
            }
        }
        let mut s = self.san_head(mov);
        let w = self.white_turn;
        let mut scratch = Board {
            white: self.white.clone_side(),
            black: self.black.clone_side(),
            castling: self.castling,
            white_turn: self.white_turn,
            en_passant: self.en_passant,
            history: Vec::new(),
            repetition_history: Vec::new(),
            half_moves: self.half_moves,
            full_move: self.full_move,
            white_cache: self.white_cache,
            black_cache: self.black_cache,
        };
        proof {
            assert(scratch.wf());
            assert(crate::board::movement::move_fits(scratch, *mov));
            crate::board::movegen::lemma_applied_one_king(scratch, *mov);
            assert(crate::board::movement::applied_mover(scratch, *mov)
                == crate::board::movement::applied_mover(*self, *mov));
            assert(crate::board::movement::applied_opp(scratch, *mov)
                == crate::board::movement::applied_opp(*self, *mov));
        }
        scratch.apply_core(*mov);
        proof {
            assert(scratch.kings_ok()) by {
                if w {
                    assert(scratch.black.bb[5].0 == self.black.bb[5].0);
                } else {
                    assert(scratch.white.bb[5].0 == self.white.bb[5].0);
                }
            }
            assert(crate::board::movement::core_eq(
                scratch,
                crate::board::movement::applied_pos(*self, *mov),
            ));
            crate::board::movegen::lemma_check_state_congr(
                scratch,
                crate::board::movement::applied_pos(*self, *mov),
                !w,
            );
        }
        if scratch.is_checkmate(!w) {
            push_san_char(&mut s, '#');
        } else if scratch.is_in_check(!w) {
            push_san_char(&mut s, '+');
        }
        proof {
            assert(s@ =~= san_head_chars(*self, *mov) + suffix_chars(*self, *mov));
        }
        s
    }

    /// The move history as PGN-like numbered move-pair text: each
    /// white move prefixed by its number, every stored notation string
    /// in order, closed by an asterisk.
    pub fn to_pgn(&self) -> (r: String)
        requires
            self.history@.len() < 0x8000_0000,
        ensures
            r@ == pgn_chars(self.history@, self.history@.len() as int) + seq!['*'],
    {
        let mut out = String::new();
        let n = self.history.len();
        let mut i: usize = 0;
        while i < n
            invariant
                n == self.history@.len(),
                n < 0x8000_0000,
                i <= n,
                out@ == pgn_chars(self.history@, i as int),
            decreases n - i,
        {
            if i % 2 == 0 {
                push_num(&mut out, (i / 2 + 1) as u32);
                push_san_char(&mut out, '.');
                push_fen_char(&mut out, ' ');
            }
            let entry = &self.history[i];
            out.append(entry.1.as_str());
            push_fen_char(&mut out, ' ');
            proof {
                assert(out@ =~= pgn_chars(self.history@, i + 1));
            }
            i = i + 1;
        }
        push_san_char(&mut out, '*');
        out
    }

    /// The move history as a simple numbered transcript: each pair of
    /// stored notation strings on one numbered line.
    pub fn get_move_history(&self) -> (r: String)
        requires
            self.history@.len() < 0x8000_0000,
        ensures
            r@ == transcript_chars(self.history@, self.history@.len() as int),
    {
        let mut out = String::new();
        let n = self.history.len();
        let mut i: usize = 0;
        while i < n
            invariant
                n == self.history@.len(),
                n < 0x8000_0000,
                i <= n,
                out@ == transcript_chars(self.history@, i as int),
            decreases n - i,
        {
            if i % 2 == 0 {
                push_num(&mut out, (i / 2 + 1) as u32);
                push_san_char(&mut out, '.');
                push_fen_char(&mut out, ' ');
            }
            let entry = &self.history[i];
            out.append(entry.1.as_str());
            if i % 2 == 0 {
                push_san_char(&mut out, ',');
                push_fen_char(&mut out, ' ');
            } else {
                push_san_char(&mut out, '\n');
            }
            proof {
                assert(out@ =~= transcript_chars(self.history@, i + 1));
            }
            i = i + 1;
        }
        out
    }
}

/// The PGN-like text of the first `n` history entries: move numbers
/// before white's moves, each stored notation string followed by a
/// space.
pub open spec fn pgn_chars(h: Seq<(Move, String)>, n: int) -> Seq<char>
    decreases n,
{
    if n <= 0 {
        Seq::<char>::empty()
    } else {
        pgn_chars(h, n - 1) + (if (n - 1) % 2 == 0 {
            num_chars((n - 1) / 2 + 1) + seq!['.', ' ']
        } else {
            Seq::<char>::empty()
        }) + h[n - 1].1@ + seq![' ']
    }
}

/// The transcript text of the first `n` history entries: numbered
/// pairs, white's move then black's on one line.
pub open spec fn transcript_chars(h: Seq<(Move, String)>, n: int) -> Seq<char>
    decreases n,
{
    if n <= 0 {
        Seq::<char>::empty()
    } else {
        transcript_chars(h, n - 1) + (if (n - 1) % 2 == 0 {
            num_chars((n - 1) / 2 + 1) + seq!['.', ' ']
        } else {
            Seq::<char>::empty()
        }) + h[n - 1].1@ + (if (n - 1) % 2 == 0 {
            seq![',', ' ']
        } else {
            seq!['\n']
        })
    }
}

/// The letter of a file index.
fn file_char_of(f: u8) -> (r: char)
    requires
        f < 8,
    ensures
        is_fen_char(r),
        r == file_char(f as int),
{
    match f {
        0 => 'a',
        1 => 'b',
        2 => 'c',
        3 => 'd',
        4 => 'e',
        5 => 'f',
        6 => 'g',
        _ => 'h',
    }
}

/// The digit of a rank index.
fn rank_char_of(rk: u8) -> (r: char)
    requires
        rk < 8,
    ensures
        is_fen_char(r),
        r == digit_char(rk + 1),
{
    match rk {
        0 => '1',
        1 => '2',
        2 => '3',
        3 => '4',
        4 => '5',
        5 => '6',
        6 => '7',
        _ => '8',
    }
}




/// The piece a promotion letter names.
pub open spec fn promo_of_byte(ch: u8) -> Option<Piece> {
    if ch == 78 {
        Some(Piece::Knight)
    } else if ch == 66 {
        Some(Piece::Bishop)
    } else if ch == 82 {
        Some(Piece::Rook)
    } else if ch == 81 {
        Some(Piece::Queen)
    } else {
        None
    }
}

/// Read disambiguation letters: at most one file letter and one rank
/// digit, in either order; anything else fails.
pub open spec fn disamb_scan(
    bs: Seq<u8>,
    j: int,
    hi2: int,
    df: Option<u8>,
    dr: Option<u8>,
) -> Option<(Option<u8>, Option<u8>)>
    decreases hi2 - j,
{
    if j < 0 || j >= hi2 || hi2 > bs.len() {
        Some((df, dr))
    } else if 97 <= bs[j] <= 104 && df is None {
        disamb_scan(bs, j + 1, hi2, Some((bs[j] - 97) as u8), dr)
    } else if 49 <= bs[j] <= 56 && dr is None {
        disamb_scan(bs, j + 1, hi2, df, Some((bs[j] - 49) as u8))
    } else {
        None
    }
}

/// The tokens of a plain algebraic move between `lo` and `hi0`: the
/// piece letter (a pawn when none), optional disambiguation file and
/// rank, the capture sign, the destination square, and an optional
/// promotion suffix.
pub open spec fn san_tokens(bs: Seq<u8>, lo: int, hi0: int) -> Option<
    (Piece, Option<u8>, Option<u8>, bool, Tile, Option<Piece>),
> {
    let has_promo = hi0 - lo >= 2 && bs[hi0 - 2] == 61;
    let promo = if has_promo {
        promo_of_byte(bs[hi0 - 1])
    } else {
        None
    };
    let hi = if has_promo {
        hi0 - 2
    } else {
        hi0
    };
    if has_promo && promo is None {
        None
    } else if hi - lo < 2 {
        None
    } else if !(97 <= bs[hi - 2] <= 104 && 49 <= bs[hi - 1] <= 56) {
        None
    } else {
        let dest = Tile((((bs[hi - 1] - 49) * 8 + (bs[hi - 2] - 97))) as u8);
        let xflag = hi - 2 > lo && bs[hi - 3] == 120;
        let hi2 = if xflag {
            hi - 3
        } else {
            hi - 2
        };
        let piece = if lo < hi2 && bs[lo] == 78 {
            Piece::Knight
        } else if lo < hi2 && bs[lo] == 66 {
            Piece::Bishop
        } else if lo < hi2 && bs[lo] == 82 {
            Piece::Rook
        } else if lo < hi2 && bs[lo] == 81 {
            Piece::Queen
        } else if lo < hi2 && bs[lo] == 75 {
            Piece::King
        } else {
            Piece::Pawn
        };
        let j = if piece == Piece::Pawn {
            lo
        } else {
            lo + 1
        };
        match disamb_scan(bs, j, hi2, None, None) {
            None => None,
            Some((df, dr)) => Some((piece, df, dr, xflag, dest, promo)),
        }
    }
}

/// The square `t` holds a piece of the side to move of the parsed kind,
/// matches the disambiguation letters, and has a pattern move to the
/// destination.
pub open spec fn san_resolves_at(
    b: Board,
    piece: Piece,
    df: Option<u8>,
    dr: Option<u8>,
    dest: Tile,
    t: Tile,
) -> bool {
    &&& t.wf()
    &&& bit64(b.player_of(b.white_turn).bb[piece.spec_index()].0, t.0 as u64)
    &&& (df matches Some(f) ==> t.spec_file() == f)
    &&& (dr matches Some(rk) ==> t.spec_rank() == rk)
    &&& exists|mm: Move|
        #[trigger] crate::board::movegen::pseudo_from(b, t, mm) && mm.from == t && mm.to == dest
}

/// The capture a move to `dest` takes off the board: the piece standing
/// there, or the en-passant pawn for a pawn onto the stored target.
pub open spec fn san_capture(b: Board, piece: Piece, dest: Tile) -> Option<Piece> {
    match b.piece_color_at(dest) {
        Some((cp, cc)) => Some(cp),
        None => if b.en_passant == Some(dest) && piece == Piece::Pawn {
            Some(Piece::Pawn)
        } else {
            None
        },
    }
}

/// The first position past the leading spaces.
pub open spec fn trim_lo(bs: Seq<u8>, i: int) -> int
    decreases bs.len() - i,
{
    if i < 0 || i >= bs.len() || bs[i] != 32 {
        i
    } else {
        trim_lo(bs, i + 1)
    }
}

/// The position before the trailing spaces and check or mate signs,
/// scanning down from `i` but not past `lo`.
pub open spec fn trim_hi(bs: Seq<u8>, lo: int, i: int) -> int
    decreases i - lo,
{
    if i <= lo || i > bs.len() {
        i
    } else if bs[i - 1] == 32 || bs[i - 1] == 43 || bs[i - 1] == 35 {
        trim_hi(bs, lo, i - 1)
    } else {
        i
    }
}

/// A castling letter: the letter O or the digit zero.
pub open spec fn is_oh(b: u8) -> bool {
    b == 79 || b == 48
}

/// The trimmed text is a king-side castling word.
pub open spec fn says_castle_short(bs: Seq<u8>) -> bool {
    let lo = trim_lo(bs, 0);
    let hi = trim_hi(bs, lo, bs.len() as int);
    hi - lo == 3 && is_oh(bs[lo]) && bs[lo + 1] == 45 && is_oh(bs[lo + 2])
}

/// The trimmed text is a queen-side castling word.
pub open spec fn says_castle_long(bs: Seq<u8>) -> bool {
    let lo = trim_lo(bs, 0);
    let hi = trim_hi(bs, lo, bs.len() as int);
    hi - lo == 5 && is_oh(bs[lo]) && bs[lo + 1] == 45 && is_oh(bs[lo + 2]) && bs[lo + 3] == 45
        && is_oh(bs[lo + 4])
}

impl Board {

    /// Parse the non-castling part of an algebraic move: promotion
    /// suffix, destination square, capture sign, piece letter and
    /// disambiguation, then resolve the source square among the side's
    /// pieces of that kind by their pattern moves.
    #[verifier::rlimit(100)]
    fn parse_plain_move(&self, bs: &Vec<u8>, lo0: usize, hi0: usize) -> (r: Option<Move>)
        requires
            self.wf(),
            self.kings_ok(),
            lo0 <= hi0 <= bs@.len(),
        ensures
            san_tokens(bs@, lo0 as int, hi0 as int) is None ==> r is None,
            san_tokens(bs@, lo0 as int, hi0 as int) matches Some(tk) ==> {
                let (piece, df, dr, xflag, dest, promo) = tk;
                match r {
                    None => (forall|t: Tile| !san_resolves_at(*self, piece, df, dr, dest, t)) || (
                    xflag && san_capture(*self, piece, dest) is None),
                    Some(m) => {
                        &&& san_resolves_at(*self, piece, df, dr, dest, m.from)
                        &&& forall|t: Tile|
                            (t.0 as u64) < (m.from.0 as u64) ==> !san_resolves_at(
                                *self,
                                piece,
                                df,
                                dr,
                                dest,
                                t,
                            )
                        &&& m == crate::board::movegen::gen_move(
                            *self,
                            m.from,
                            dest,
                            piece,
                            san_capture(*self, piece, dest),
                            promo,
                        )
                        &&& !(xflag && san_capture(*self, piece, dest) is None)
                    },
                }
            },
    {
        let lo = lo0;
        let mut hi = hi0;
        let len = hi - lo;
        let ghost toks = san_tokens(bs@, lo0 as int, hi0 as int);
        // promotion suffix
        let mut promotion: Option<Piece> = None;
        if len >= 2 && bs[hi - 2] == 61u8 {
            promotion = match bs[hi - 1] {
                78u8 => Some(Piece::Knight),
                66u8 => Some(Piece::Bishop),
                82u8 => Some(Piece::Rook),
                81u8 => Some(Piece::Queen),
                _ => {
                    proof {
                        assert(toks is None);
                    }
                    return None;
                },
            };
            hi = hi - 2;
        }
        if hi - lo < 2 {
            proof {
                assert(toks is None);
            }
            return None;
        }
        // destination square: the last two bytes
        let fb = bs[hi - 2];
        let rb = bs[hi - 1];
        if fb < 97u8 || fb > 104u8 || rb < 49u8 || rb > 56u8 {
            proof {
                assert(toks is None);
            }
            return None;
        }
        let to = Tile((rb - 49) * 8 + (fb - 97));
        let mut hi2 = hi - 2;
        // capture sign
        let mut xflag = false;
        if hi2 > lo && bs[hi2 - 1] == 120u8 {
            xflag = true;
            hi2 = hi2 - 1;
        }
        // piece letter
        let mut piece = Piece::Pawn;
        let mut j = lo;
        if j < hi2 {
            match bs[j] {
                78u8 => {
                    piece = Piece::Knight;
                    j = j + 1;
                },
                66u8 => {
                    piece = Piece::Bishop;
                    j = j + 1;
                },
                82u8 => {
                    piece = Piece::Rook;
                    j = j + 1;
                },
                81u8 => {
                    piece = Piece::Queen;
                    j = j + 1;
                },
                75u8 => {
                    piece = Piece::King;
                    j = j + 1;
                },
                _ => {},
            }
        }
        // disambiguation letters between the piece letter and the square
        let ghost j0 = j as int;
        let mut disamb_file: Option<u8> = None;
        let mut disamb_rank: Option<u8> = None;
        while j < hi2
            invariant
                hi2 <= bs@.len(),
                j <= hi2,
                disamb_file matches Some(f) ==> f < 8,
                disamb_rank matches Some(rk) ==> rk < 8,
                disamb_scan(bs@, j0, hi2 as int, None, None) == disamb_scan(
                    bs@,
                    j as int,
                    hi2 as int,
                    disamb_file,
                    disamb_rank,
                ),
                toks == san_tokens(bs@, lo0 as int, hi0 as int),
                disamb_scan(bs@, j0, hi2 as int, None, None) is None ==> toks is None,
                forall|p: (Option<u8>, Option<u8>)|
                    disamb_scan(bs@, j0, hi2 as int, None, None) == Some(p) ==> toks == Some(
                        (piece, p.0, p.1, xflag, to, promotion),
                    ),
            decreases hi2 - j,
        {
            let c = bs[j];
            if 97u8 <= c && c <= 104u8 && disamb_file.is_none() {
                disamb_file = Some(c - 97);
            } else if 49u8 <= c && c <= 56u8 && disamb_rank.is_none() {
                disamb_rank = Some(c - 49);
            } else {
                proof {
                    assert(disamb_scan(bs@, j as int, hi2 as int, disamb_file, disamb_rank)
                        is None);
                    assert(toks is None);
                }
                return None;
            }
            j = j + 1;
        }
        proof {
            assert(disamb_scan(bs@, hi2 as int, hi2 as int, disamb_file, disamb_rank) == Some(
                (disamb_file, disamb_rank),
            ));
            assert(toks == Some((piece, disamb_file, disamb_rank, xflag, to, promotion)));
        }
        // resolve the source square among the side's pieces of the kind:
        // the lowest matching square with a pattern move to the target
        let (player, _) = self.current_players();
        let kind_board = player.bb[piece.to_usize()];
        let ghost orig = kind_board.0;
        let mut found: Option<Tile> = None;
        let mut it = kind_board.iter();
        loop
            invariant
                self.wf(),
                self.kings_ok(),
                to.wf(),
                orig == self.player_of(self.white_turn).bb[piece.spec_index()].0,
                disamb_file matches Some(f) ==> f < 8,
                disamb_rank matches Some(rk) ==> rk < 8,
                forall|k: u64| #[trigger] bit64(it.0, k) ==> bit64(orig, k),
                forall|a: u64, b: u64|
                    #![trigger bit64(orig, a), bit64(it.0, b)]
                    bit64(orig, a) && !bit64(it.0, a) && bit64(it.0, b) ==> a < b,
                found is None ==> forall|t: Tile|
                    !bit64(it.0, t.0 as u64) ==> !san_resolves_at(
                        *self,
                        piece,
                        disamb_file,
                        disamb_rank,
                        to,
                        t,
                    ),
                found matches Some(t) ==> san_resolves_at(
                    *self,
                    piece,
                    disamb_file,
                    disamb_rank,
                    to,
                    t,
                ) && (forall|t2: Tile|
                    (t2.0 as u64) < (t.0 as u64) ==> !san_resolves_at(
                        *self,
                        piece,
                        disamb_file,
                        disamb_rank,
                        to,
                        t2,
                    )),
            ensures
                it.0 == 0,
                found is None ==> forall|t: Tile|
                    !bit64(it.0, t.0 as u64) ==> !san_resolves_at(
                        *self,
                        piece,
                        disamb_file,
                        disamb_rank,
                        to,
                        t,
                    ),
                found matches Some(t) ==> san_resolves_at(
                    *self,
                    piece,
                    disamb_file,
                    disamb_rank,
                    to,
                    t,
                ) && (forall|t2: Tile|
                    (t2.0 as u64) < (t.0 as u64) ==> !san_resolves_at(
                        *self,
                        piece,
                        disamb_file,
                        disamb_rank,
                        to,
                        t2,
                    )),
            decreases crate::bits::popcnt64(it.0),
        {
            let ghost prev = it.0;
            let next = it.next();
            match next {
                None => {
                    break ;
                },
                Some(t) => {
                    proof {
                        crate::bits::lemma_pop_below_except(it.0, prev, t.0 as u64, 64);
                    }
                    let mut keep = true;
                    match disamb_file {
                        Some(f) => {
                            let (tf, _) = t.get_coords();
                            if tf != f {
                                keep = false;
                            }
                        },
                        None => {},
                    }
                    match disamb_rank {
                        Some(rk) => {
                            let (_, tr) = t.get_coords();
                            if tr != rk {
                                keep = false;
                            }
                        },
                        None => {},
                    }
                    if keep && found.is_none() {
                        let mut ms = crate::move_list::MoveList::new();
                        self.generate_psuedo_moves_from(t, &mut ms);
                        if ms.contains_move(t, to) {
                            proof {
                                let i = choose|i: int|
                                    0 <= i < ms@.len() && ms@[i].from == t && ms@[i].to == to;
                                assert(ms@.contains(ms@[i]));
                                assert(crate::board::movegen::pseudo_from(*self, t, ms@[i]));
                                assert(san_resolves_at(
                                    *self,
                                    piece,
                                    disamb_file,
                                    disamb_rank,
                                    to,
                                    t,
                                ));
                                assert forall|t2: Tile|
                                    (t2.0 as u64) < (t.0 as u64) implies !san_resolves_at(
                                    *self,
                                    piece,
                                    disamb_file,
                                    disamb_rank,
                                    to,
                                    t2,
                                ) by {
                                    if san_resolves_at(
                                        *self,
                                        piece,
                                        disamb_file,
                                        disamb_rank,
                                        to,
                                        t2,
                                    ) {
                                        assert(bit64(orig, t2.0 as u64));
                                        assert(!bit64(prev, t2.0 as u64));
                                        assert(!bit64(it.0, t2.0 as u64));
                                    }
                                }
                            }
                            found = Some(t);
                        } else {
                            proof {
                                if san_resolves_at(
                                    *self,
                                    piece,
                                    disamb_file,
                                    disamb_rank,
                                    to,
                                    t,
                                ) {
                                    let mm = choose|mm: Move|
                                        #[trigger] crate::board::movegen::pseudo_from(
                                            *self,
                                            t,
                                            mm,
                                        ) && mm.from == t && mm.to == to;
                                    assert(ms@.contains(mm));
                                    let i = choose|i: int| 0 <= i < ms@.len() && ms@[i] == mm;
                                    assert(ms@[i].from == t && ms@[i].to == to);
                                    assert(false);
                                }
                            }
                        }
                    } else {
                        proof {
                            if found is None && san_resolves_at(
                                *self,
                                piece,
                                disamb_file,
                                disamb_rank,
                                to,
                                t,
                            ) {
                                assert(keep);
                                assert(false);
                            }
                        }
                    }
                },
            }
        }
        let from = match found {
            Some(t) => t,
            None => {
                proof {
                    assert forall|t: Tile| !san_resolves_at(
                        *self,
                        piece,
                        disamb_file,
                        disamb_rank,
                        to,
                        t,
                    ) by {
                        if san_resolves_at(*self, piece, disamb_file, disamb_rank, to, t) {
                            assert(bit64(orig, t.0 as u64));
                            crate::bits::lemma_bit_zero(t.0 as u64);
                        }
                    }
                }
                return None;
            },
        };
        // the capture the board shows on the destination
        let captured: Option<Piece> = match self.get_piece_at_tile(to) {
            Some((cp, _)) => Some(cp),
            None => {
                let is_ep = match self.en_passant {
                    Some(e) => e.to_u8() == to.to_u8(),
                    None => false,
                };
                let is_pawn = match piece {
                    Piece::Pawn => true,
                    _ => false,
                };
                if is_ep && is_pawn {
                    Some(Piece::Pawn)
                } else {
                    None
                }
            },
        };
        proof {
            assert(captured == san_capture(*self, piece, to));
        }
        if xflag && captured.is_none() {
            return None;
        }
        let m = self.create_move(from, to, piece, captured, promotion);
        proof {
            assert(m.from == from && m.to == to);
        }
        Some(m)
    }

    /// Parse a standard algebraic move against the current position:
    /// castling (`O-O`, `O-O-O`, or the zero forms), a piece letter,
    /// optional disambiguation file and/or rank, `x` on capture, the
    /// destination square and an optional promotion suffix.  The source
    /// square is resolved against the pattern moves of the side to
    /// move; an unreadable or unresolvable string gives nothing.
    pub fn move_from_algebraic(&self, s: &str) -> (r: Option<Move>)
        requires
            self.wf(),
            self.kings_ok(),
        ensures
            says_castle_short(s.spec_bytes()) ==> r == Some(
                crate::board::movegen::gen_move(
                    *self,
                    Tile(
                        if self.white_turn {
                            4
                        } else {
                            60
                        },
                    ),
                    Tile(
                        if self.white_turn {
                            6
                        } else {
                            62
                        },
                    ),
                    Piece::King,
                    None,
                    None,
                ),
            ),
            !says_castle_short(s.spec_bytes()) && says_castle_long(s.spec_bytes()) ==> r == Some(
                crate::board::movegen::gen_move(
                    *self,
                    Tile(
                        if self.white_turn {
                            4
                        } else {
                            60
                        },
                    ),
                    Tile(
                        if self.white_turn {
                            2
                        } else {
                            58
                        },
                    ),
                    Piece::King,
                    None,
                    None,
                ),
            ),
            r matches Some(m) ==> m.wf() && m.en_passant == self.en_passant && m.prev_castle
                == self.castling && m.prev_half_moves == self.half_moves,
            !says_castle_short(s.spec_bytes()) && !says_castle_long(s.spec_bytes()) ==> {
                let bsv = s.spec_bytes();
                let lo = trim_lo(bsv, 0);
                let hi = trim_hi(bsv, lo, bsv.len() as int);
                match san_tokens(bsv, lo, hi) {
                    None => r is None,
                    Some(tk) => {
                        let (piece, df, dr, xflag, dest, promo) = tk;
                        match r {
                            None => (forall|t: Tile|
                                !san_resolves_at(*self, piece, df, dr, dest, t)) || (xflag
                                && san_capture(*self, piece, dest) is None),
                            Some(m) => {
                                &&& san_resolves_at(*self, piece, df, dr, dest, m.from)
                                &&& forall|t: Tile|
                                    (t.0 as u64) < (m.from.0 as u64) ==> !san_resolves_at(
                                        *self,
                                        piece,
                                        df,
                                        dr,
                                        dest,
                                        t,
                                    )
                                &&& m == crate::board::movegen::gen_move(
                                    *self,
                                    m.from,
                                    dest,
                                    piece,
                                    san_capture(*self, piece, dest),
                                    promo,
                                )
                                &&& !(xflag && san_capture(*self, piece, dest) is None)
                            },
                        }
                    },
                }
            },
    {
        let bs = s.as_bytes_vec();
        // trim spaces and a trailing check or mate sign
        let mut lo: usize = 0;
        let mut hi: usize = bs.len();
        while lo < hi && bs[lo] == 32u8
            invariant
                bs@ == s.spec_bytes(),
                hi == bs@.len(),
                lo <= hi,
                trim_lo(bs@, 0) == trim_lo(bs@, lo as int),
            decreases hi - lo,
        {
            lo = lo + 1;
        }
        proof {
            assert(trim_lo(bs@, 0) == lo);
        }
        let ghost slo = lo as int;
        while hi > lo && (bs[hi - 1] == 32u8 || bs[hi - 1] == 43u8 || bs[hi - 1] == 35u8)
            invariant
                bs@ == s.spec_bytes(),
                hi <= bs@.len(),
                lo <= hi,
                lo == slo,
                trim_lo(bs@, 0) == slo,
                trim_hi(bs@, slo, bs@.len() as int) == trim_hi(bs@, slo, hi as int),
            decreases hi - lo,
        {
            hi = hi - 1;
        }
        proof {
            assert(trim_hi(bs@, slo, hi as int) == hi);
            assert(trim_hi(bs@, slo, bs@.len() as int) == hi);
        }
        let len = hi - lo;
        // castling forms
        if len == 3 {
            let c0 = bs[lo];
            let c1 = bs[lo + 1];
            let c2 = bs[lo + 2];
            if (c0 == 79u8 || c0 == 48u8) && c1 == 45u8 && (c2 == 79u8 || c2 == 48u8) {
                proof {
                    assert(says_castle_short(bs@));
                }
                let from = if self.white_turn {
                    Tile(4)
                } else {
                    Tile(60)
                };
                let to = if self.white_turn {
                    Tile(6)
                } else {
                    Tile(62)
                };
                return Some(self.create_move(from, to, Piece::King, None, None));
            }
        }
        proof {
            assert(!says_castle_short(bs@));
        }
        if len == 5 {
            let c0 = bs[lo];
            let c1 = bs[lo + 1];
            let c2 = bs[lo + 2];
            let c3 = bs[lo + 3];
            let c4 = bs[lo + 4];
            if (c0 == 79u8 || c0 == 48u8) && c1 == 45u8 && (c2 == 79u8 || c2 == 48u8) && c3
                == 45u8 && (c4 == 79u8 || c4 == 48u8) {
                proof {
                    assert(says_castle_long(bs@));
                }
                let from = if self.white_turn {
                    Tile(4)
                } else {
                    Tile(60)
                };
                let to = if self.white_turn {
                    Tile(2)
                } else {
                    Tile(58)
                };
                return Some(self.create_move(from, to, Piece::King, None, None));
            }
        }
        proof {
            assert(!says_castle_long(bs@));
        }
        if len == 0 {
            proof {
                assert(san_tokens(bs@, lo as int, hi as int) is None);
            }
            return None;
        }
        self.parse_plain_move(&bs, lo, hi)
    }
}

} // verus!
