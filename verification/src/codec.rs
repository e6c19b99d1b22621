//! The persistence codec: the tile graph as a textual structured byte
//! stream, and back.
//!
//! The layout is a single mapping from key strings to tile records
//! `{"x":…,"y":…,"c":"…","neighbors":[…]}`, with the grid's metadata
//! stored under the three reserved keys `mapsize`, `default_floor` and
//! `default_wall` ahead of the tiles, which follow in row-major order.  The decoder accepts exactly what the encoder emits
//! and rebuilds the same grid; parsing inverts printing, which is proved.

use std::io::Read;
use std::io::Write;
use vstd::prelude::*;
use crate::grid::Grid;
use crate::grid::GridV;
use crate::grid::lemma_index_to_coord;
use crate::grid::wf;
use crate::tile::Coord;
use crate::tile::Tile;
use crate::tile::TileKind;
use crate::tile::round_trips;
use crate::tile::spec_char_code;
use crate::wire::key_bytes;
use crate::wire::push_key;
use crate::wire::spec_dec;
use crate::wire::push_dec;

verus! {

/// `{"x":`
pub open spec fn lit_open_x() -> Seq<u8> {
    seq![123u8, 34u8, 120u8, 34u8, 58u8]
}

/// `,"y":`
pub open spec fn lit_comma_y() -> Seq<u8> {
    seq![44u8, 34u8, 121u8, 34u8, 58u8]
}

/// `,"c":"`
pub open spec fn lit_comma_c() -> Seq<u8> {
    seq![44u8, 34u8, 99u8, 34u8, 58u8, 34u8]
}

/// `","neighbors":[`
pub open spec fn lit_neighbors() -> Seq<u8> {
    seq![34u8, 44u8, 34u8, 110u8, 101u8, 105u8, 103u8, 104u8, 98u8, 111u8, 114u8, 115u8, 34u8, 58u8, 91u8]
}

/// `]}`
pub open spec fn lit_close() -> Seq<u8> {
    seq![93u8, 125u8]
}

/// `{"mapsize":`
pub open spec fn lit_header_mapsize() -> Seq<u8> {
    seq![123u8, 34u8, 109u8, 97u8, 112u8, 115u8, 105u8, 122u8, 101u8, 34u8, 58u8]
}

/// `,"default_floor":`
pub open spec fn lit_header_floor() -> Seq<u8> {
    seq![
        44u8,
        34u8,
        100u8,
        101u8,
        102u8,
        97u8,
        117u8,
        108u8,
        116u8,
        95u8,
        102u8,
        108u8,
        111u8,
        111u8,
        114u8,
        34u8,
        58u8,
    ]
}

/// `,"default_wall":`
pub open spec fn lit_header_wall() -> Seq<u8> {
    seq![
        44u8,
        34u8,
        100u8,
        101u8,
        102u8,
        97u8,
        117u8,
        108u8,
        116u8,
        95u8,
        119u8,
        97u8,
        108u8,
        108u8,
        34u8,
        58u8,
    ]
}

/// The storage code of a tile type, as a byte.
pub open spec fn code_byte(k: TileKind) -> u8 {
    spec_char_code(k) as u8
}

/// A key in quotes.
pub open spec fn quoted_key(c: Coord) -> Seq<u8> {
    seq![34u8] + key_bytes(c.x as nat, c.y as nat) + seq![34u8]
}

/// A comma-separated list of quoted neighbor keys.
pub open spec fn nb_list_bytes(nbs: Seq<Coord>) -> Seq<u8>
    decreases nbs.len(),
{
    if nbs.len() == 0 {
        Seq::empty()
    } else if nbs.len() == 1 {
        quoted_key(nbs[0])
    } else {
        nb_list_bytes(nbs.drop_last()) + seq![44u8] + quoted_key(nbs.last())
    }
}

/// One tile record.
pub open spec fn record_bytes(x: nat, y: nat, code: u8, nbs: Seq<Coord>) -> Seq<u8> {
    lit_open_x() + spec_dec(x) + lit_comma_y() + spec_dec(y) + lit_comma_c() + seq![code]
        + lit_neighbors() + nb_list_bytes(nbs) + lit_close()
}

/// The stored image of tile `k` alone: a comma, the quoted key, a colon,
/// and the record.
pub open spec fn tile_entry_bytes(v: GridV, k: int) -> Seq<u8> {
    let t = v.tiles[k];
    (seq![44u8, 34u8] + key_bytes(t.x as nat, t.y as nat) + seq![34u8, 58u8]) + record_bytes(
        t.x as nat,
        t.y as nat,
        code_byte(t.kind),
        t.neighbors,
    )
}

/// The first `n` tile entries, in row-major order.
pub open spec fn tiles_entries(v: GridV, n: int) -> Seq<u8>
    decreases n,
{
    if n <= 0 {
        Seq::empty()
    } else {
        tiles_entries(v, n - 1) + tile_entry_bytes(v, n - 1)
    }
}

/// The whole stored image of a grid: the three reserved metadata entries,
/// then every tile.
pub open spec fn encode_bytes(v: GridV) -> Seq<u8> {
    lit_header_mapsize() + record_bytes(v.size_x as nat, v.size_y as nat, 36u8, Seq::empty())
        + lit_header_floor() + record_bytes(
        v.size_x as nat,
        v.size_y as nat,
        code_byte(v.default_floor),
        Seq::empty(),
    ) + lit_header_wall() + record_bytes(
        v.size_x as nat,
        v.size_y as nat,
        code_byte(v.default_wall),
        Seq::empty(),
    ) + tiles_entries(v, v.tiles.len() as int) + seq![125u8]
}

/// A grid whose stored image decodes back to it: every tile type in it
/// has a storage code of its own.  `Road` shares the floor code, so a
/// grid holding roads loses them to floors on disk, as the code table
/// says.
pub open spec fn codec_safe(v: GridV) -> bool {
    &&& round_trips(v.default_floor)
    &&& round_trips(v.default_wall)
    &&& forall|i: int| 0 <= i < v.tiles.len() ==> round_trips((#[trigger] v.tiles[i]).kind)
}

/// Appends one quoted key.
fn push_quoted_key(out: &mut Vec<u8>, c: Coord)
    ensures
        final(out)@ == old(out)@ + quoted_key(c),
{
    out.push(34);
    push_key(out, c.x, c.y);
    out.push(34);
    assert(final(out)@ =~= old(out)@ + quoted_key(c)) by {
        assert(out@ =~= old(out)@ + quoted_key(c));
    }
}

/// Appends a comma-separated neighbor list.
fn push_nb_list(out: &mut Vec<u8>, nbs: &Vec<Coord>)
    ensures
        final(out)@ == old(out)@ + nb_list_bytes(nbs@),
{
    let n = nbs.len();
    let mut i: usize = 0;
    while i < n
        invariant
            i <= n,
            n == nbs@.len(),
            out@ == old(out)@ + nb_list_bytes(nbs@.subrange(0, i as int)),
        decreases n - i,
    {
        if i > 0 {
            out.push(44);
        }
        push_quoted_key(out, nbs[i]);
        proof {
            let sub1 = nbs@.subrange(0, i + 1);
            assert(sub1.drop_last() =~= nbs@.subrange(0, i as int));
            assert(sub1.last() == nbs@[i as int]);
            if i == 0 {
                assert(nb_list_bytes(sub1) == quoted_key(nbs@[0]));
                assert(out@ =~= old(out)@ + nb_list_bytes(sub1));
            } else {
                assert(nb_list_bytes(sub1) == nb_list_bytes(nbs@.subrange(0, i as int))
                    + seq![44u8] + quoted_key(nbs@[i as int]));
                assert(out@ =~= old(out)@ + nb_list_bytes(sub1));
            }
        }
        i = i + 1;
    }
    proof {
        assert(nbs@.subrange(0, n as int) =~= nbs@);
    }
}

/// Appends one tile record.
#[verifier::rlimit(60)]
fn push_record(out: &mut Vec<u8>, x: usize, y: usize, code: u8, nbs: &Vec<Coord>)
    ensures
        final(out)@ == old(out)@ + record_bytes(x as nat, y as nat, code, nbs@),
{
    out.push(123);
    out.push(34);
    out.push(120);
    out.push(34);
    out.push(58);
    assert(out@ =~= old(out)@ + lit_open_x());
    push_dec(out, x);
    out.push(44);
    out.push(34);
    out.push(121);
    out.push(34);
    out.push(58);
    assert(out@ =~= old(out)@ + lit_open_x() + spec_dec(x as nat) + lit_comma_y());
    push_dec(out, y);
    out.push(44);
    out.push(34);
    out.push(99);
    out.push(34);
    out.push(58);
    out.push(34);
    out.push(code);
    out.push(34);
    out.push(44);
    out.push(34);
    out.push(110);
    out.push(101);
    out.push(105);
    out.push(103);
    out.push(104);
    out.push(98);
    out.push(111);
    out.push(114);
    out.push(115);
    out.push(34);
    out.push(58);
    out.push(91);
    assert(out@ =~= old(out)@ + lit_open_x() + spec_dec(x as nat) + lit_comma_y() + spec_dec(
        y as nat,
    ) + lit_comma_c() + seq![code] + lit_neighbors());
    push_nb_list(out, nbs);
    out.push(93);
    out.push(125);
    assert(out@ =~= old(out)@ + record_bytes(x as nat, y as nat, code, nbs@));
}

impl Grid {
    /// The grid's stored image, uncompressed.
    #[verifier::rlimit(60)]
    pub fn encode_tileset(&self) -> (out: Vec<u8>)
        requires
            wf(self@),
        ensures
            out@ == encode_bytes(self@),
    {
        let ghost v = self@;
        let mut out: Vec<u8> = Vec::new();
        push_header_mapsize(&mut out);
        let empty_nbs: Vec<Coord> = Vec::new();
        push_record(&mut out, self.size_x, self.size_y, 36, &empty_nbs);
        push_header_floor(&mut out);
        let floor_code = self.default_floor.to_char() as u8;
        push_record(&mut out, self.size_x, self.size_y, floor_code, &empty_nbs);
        push_header_wall(&mut out);
        let wall_code = self.default_wall.to_char() as u8;
        push_record(&mut out, self.size_x, self.size_y, wall_code, &empty_nbs);
        let ghost after_meta = out@;
        proof {
            assert(after_meta =~= lit_header_mapsize() + record_bytes(
                v.size_x as nat,
                v.size_y as nat,
                36u8,
                Seq::empty(),
            ) + lit_header_floor() + record_bytes(
                v.size_x as nat,
                v.size_y as nat,
                code_byte(v.default_floor),
                Seq::empty(),
            ) + lit_header_wall() + record_bytes(
                v.size_x as nat,
                v.size_y as nat,
                code_byte(v.default_wall),
                Seq::empty(),
            ));
        }
        let n = self.tiles.len();
        let mut i: usize = 0;
        while i < n
            invariant
                i <= n,
                n == v.tiles.len(),
                v == self@,
                wf(v),
                out@ == after_meta + tiles_entries(v, i as int),
            decreases n - i,
        {
            let tile = &self.tiles[i];
            let ghost pe = out@;
            out.push(44);
            out.push(34);
            push_key(&mut out, tile.x, tile.y);
            out.push(34);
            out.push(58);
            assert(out@ =~= pe + (seq![44u8, 34u8] + key_bytes(tile.x as nat, tile.y as nat)
                + seq![34u8, 58u8]));
            let code = tile.kind.to_char() as u8;
            push_record(&mut out, tile.x, tile.y, code, &tile.neighbors);
            proof {
                let t = v.tiles[i as int];
                assert(out@ =~= pe + tile_entry_bytes(v, i as int));
                assert(out@ =~= after_meta + tiles_entries(v, i + 1));
            }
            i = i + 1;
        }
        out.push(125);
        assert(out@ =~= encode_bytes(v));
        out
    }
}

/// Appends `{"mapsize":`.
fn push_header_mapsize(out: &mut Vec<u8>)
    ensures
        final(out)@ == old(out)@ + lit_header_mapsize(),
{
    out.push(123);
    out.push(34);
    out.push(109);
    out.push(97);
    out.push(112);
    out.push(115);
    out.push(105);
    out.push(122);
    out.push(101);
    out.push(34);
    out.push(58);
    assert(out@ =~= old(out)@ + lit_header_mapsize());
}

/// Appends `,"default_floor":`.
fn push_header_floor(out: &mut Vec<u8>)
    ensures
        final(out)@ == old(out)@ + lit_header_floor(),
{
    out.push(44);
    out.push(34);
    out.push(100);
    out.push(101);
    out.push(102);
    out.push(97);
    out.push(117);
    out.push(108);
    out.push(116);
    out.push(95);
    out.push(102);
    out.push(108);
    out.push(111);
    out.push(111);
    out.push(114);
    out.push(34);
    out.push(58);
    assert(out@ =~= old(out)@ + lit_header_floor());
}

/// Appends `,"default_wall":`.
fn push_header_wall(out: &mut Vec<u8>)
    ensures
        final(out)@ == old(out)@ + lit_header_wall(),
{
    out.push(44);
    out.push(34);
    out.push(100);
    out.push(101);
    out.push(102);
    out.push(97);
    out.push(117);
    out.push(108);
    out.push(116);
    out.push(95);
    out.push(119);
    out.push(97);
    out.push(108);
    out.push(108);
    out.push(34);
    out.push(58);
    assert(out@ =~= old(out)@ + lit_header_wall());
}

/// Failure of a load: the stream was not valid compressed data, or its
/// content did not match the stored-grid shape.
#[derive(Clone, Copy, Debug, PartialEq, Eq, Structural)]
pub enum CodecError {
    Decompress,
    Parse,
}

/// Whether `lit` sits at position `i`; the position after it if so.
pub open spec fn spec_expect(s: Seq<u8>, i: int, lit: Seq<u8>) -> Option<int> {
    if 0 <= i && i + lit.len() <= s.len() && s.subrange(i, i + lit.len() as int) == lit {
        Some(i + lit.len() as int)
    } else {
        None
    }
}

/// A quoted key at position `i`.
pub open spec fn spec_parse_qkey(s: Seq<u8>, i: int) -> Option<(Coord, int)> {
    if 0 <= i < s.len() && s[i] == 34 {
        match crate::wire::spec_parse_u(s, i + 1) {
            Some((x, j)) => {
                if j < s.len() && s[j] == crate::wire::SEP {
                    match crate::wire::spec_parse_u(s, j + 1) {
                        Some((y, k)) => {
                            if k < s.len() && s[k] == 34 {
                                Some((Coord { x: x as usize, y: y as usize }, k + 1))
                            } else {
                                None
                            }
                        },
                        None => None,
                    }
                } else {
                    None
                }
            },
            None => None,
        }
    } else {
        None
    }
}

/// A comma-separated list of quoted keys, ending right before a `]`.
pub open spec fn spec_parse_nb_list(s: Seq<u8>, i: int) -> Option<(Seq<Coord>, int)>
    decreases s.len() - i,
{
    if i < 0 || i >= s.len() {
        None
    } else if s[i] == 93 {
        Some((Seq::empty(), i))
    } else {
        match spec_parse_qkey(s, i) {
            Some((c, j)) => {
                if j <= i || j > s.len() {
                    None
                } else if j < s.len() && s[j] == 44 {
                    match spec_parse_nb_list(s, j + 1) {
                        Some((rest, k)) => {
                            if rest.len() == 0 {
                                None
                            } else {
                                Some((seq![c] + rest, k))
                            }
                        },
                        None => None,
                    }
                } else {
                    Some((seq![c], j))
                }
            },
            None => None,
        }
    }
}

/// One tile record at position `i`: the coordinate, the code byte, and
/// the neighbor keys.
pub open spec fn spec_parse_record(s: Seq<u8>, i: int) -> Option<((int, int, u8, Seq<Coord>), int)> {
    match spec_expect(s, i, lit_open_x()) {
        Some(j1) => match crate::wire::spec_parse_u(s, j1) {
            Some((x, j2)) => match spec_expect(s, j2, lit_comma_y()) {
                Some(j3) => match crate::wire::spec_parse_u(s, j3) {
                    Some((y, j4)) => match spec_expect(s, j4, lit_comma_c()) {
                        Some(j5) => {
                            if j5 < s.len() {
                                let code = s[j5];
                                match spec_expect(s, j5 + 1, lit_neighbors()) {
                                    Some(j6) => match spec_parse_nb_list(s, j6) {
                                        Some((nbs, j7)) => match spec_expect(s, j7, lit_close()) {
                                            Some(j8) => Some(((x, y, code, nbs), j8)),
                                            None => None,
                                        },
                                        None => None,
                                    },
                                    None => None,
                                }
                            } else {
                                None
                            }
                        },
                        None => None,
                    },
                    None => None,
                },
                None => None,
            },
            None => None,
        },
        None => None,
    }
}

/// Whether a code byte denotes a tile type.
pub open spec fn valid_kind_code(code: u8) -> bool {
    crate::tile::spec_kind_of_char(code as char) is Some
}

/// The tile type a code byte denotes.
pub open spec fn kind_of_code(code: u8) -> TileKind {
    crate::tile::spec_kind_of_char(code as char)->Some_0
}

/// Neighbor keys a well-formed grid may store: at most eight, all inside
/// the grid.
pub open spec fn nbs_ok(nbs: Seq<Coord>, sx: int, sy: int) -> bool {
    nbs.len() <= 8 && forall|q: int|
        0 <= q < nbs.len() ==> (#[trigger] nbs[q]).x < sx && nbs[q].y < sy
}

/// The tile entries `k .. n` at position `i`, each validated against its
/// row-major coordinate.
pub open spec fn spec_parse_tiles(s: Seq<u8>, i: int, sx: int, sy: int, k: int, n: int) -> Option<
    (Seq<crate::tile::TileV>, int),
>
    decreases n - k,
{
    if k >= n {
        Some((Seq::empty(), i))
    } else {
        let ex = k % sx;
        let ey = k / sx;
        match spec_expect(
            s,
            i,
            seq![44u8, 34u8] + key_bytes(ex as nat, ey as nat) + seq![34u8, 58u8],
        ) {
            Some(j1) => match spec_parse_record(s, j1) {
                Some(((x, y, code, nbs), j2)) => {
                    if x == ex && y == ey && valid_kind_code(code) && nbs_ok(nbs, sx, sy) {
                        match spec_parse_tiles(s, j2, sx, sy, k + 1, n) {
                            Some((rest, j3)) => Some(
                                (
                                    seq![
                                        crate::tile::TileV {
                                            x: ex,
                                            y: ey,
                                            kind: kind_of_code(code),
                                            neighbors: nbs,
                                        },
                                    ] + rest,
                                    j3,
                                ),
                            ),
                            None => None,
                        }
                    } else {
                        None
                    }
                },
                None => None,
            },
            None => None,
        }
    }
}

/// The three metadata entries at the head of a stored grid: the sizes,
/// the two default-type codes, and the position after them.
pub open spec fn spec_decode_header(s: Seq<u8>) -> Option<((int, int, u8, u8), int)> {
    match spec_expect(s, 0, lit_header_mapsize()) {
        Some(j0) => match spec_parse_record(s, j0) {
            Some(((sx, sy, mcode, mnbs), j1)) => {
                if 1 <= sx <= crate::tile::MAX_DIM && 1 <= sy <= crate::tile::MAX_DIM && mcode
                    == 36 && mnbs.len() == 0 {
                    match spec_expect(s, j1, lit_header_floor()) {
                        Some(j2) => match spec_parse_record(s, j2) {
                            Some(((fx, fy, fcode, fnbs), j3)) => {
                                if fx == sx && fy == sy && valid_kind_code(fcode) && fnbs.len()
                                    == 0 {
                                    match spec_expect(s, j3, lit_header_wall()) {
                                        Some(j4) => match spec_parse_record(s, j4) {
                                            Some(((wx, wy, wcode, wnbs), j5)) => {
                                                if wx == sx && wy == sy && valid_kind_code(wcode)
                                                    && wnbs.len() == 0 {
                                                    Some(((sx, sy, fcode, wcode), j5))
                                                } else {
                                                    None
                                                }
                                            },
                                            None => None,
                                        },
                                        None => None,
                                    }
                                } else {
                                    None
                                }
                            },
                            None => None,
                        },
                        None => None,
                    }
                } else {
                    None
                }
            },
            None => None,
        },
        None => None,
    }
}

/// A whole byte string read back as a grid: exactly the encoder's layout,
/// with every value validated.
pub open spec fn spec_decode(s: Seq<u8>) -> Option<GridV> {
    match spec_decode_header(s) {
        Some(((sx, sy, fcode, wcode), j5)) => {
            match spec_parse_tiles(s, j5, sx, sy, 0, sx * sy) {
                Some((tiles, j6)) => {
                    if j6 + 1 == s.len() && j6 < s.len() && s[j6] == 125 {
                        Some(
                            GridV {
                                size_x: sx,
                                size_y: sy,
                                tiles,
                                default_floor: kind_of_code(fcode),
                                default_wall: kind_of_code(wcode),
                            },
                        )
                    } else {
                        None
                    }
                },
                None => None,
            }
        },
        None => None,
    }
}

/// A matching literal at `i` is found there.
pub proof fn lemma_expect_inverts(s: Seq<u8>, i: int, lit: Seq<u8>)
    requires
        0 <= i,
        i + lit.len() <= s.len(),
        s.subrange(i, i + lit.len() as int) == lit,
    ensures
        spec_expect(s, i, lit) == Some(i + lit.len() as int),
{
}

/// Parsing inverts printing for a quoted key embedded at `i`.
pub proof fn lemma_qkey_inverts(s: Seq<u8>, i: int, c: Coord)
    requires
        0 <= i,
        i + quoted_key(c).len() <= s.len(),
        s.subrange(i, i + quoted_key(c).len() as int) == quoted_key(c),
        c.x < 10000000,
        c.y < 10000000,
    ensures
        spec_parse_qkey(s, i) == Some((c, i + quoted_key(c).len())),
{
    let q = quoted_key(c);
    let dx = spec_dec(c.x as nat);
    let dy = spec_dec(c.y as nat);
    let lx = dx.len() as int;
    let ly = dy.len() as int;
    assert(q =~= seq![34u8] + dx + seq![crate::wire::SEP] + dy + seq![34u8]);
    assert forall|m: int| 0 <= m < q.len() implies s[i + m] == #[trigger] q[m] by {
        assert(s.subrange(i, i + q.len() as int)[m] == s[i + m]);
    }
    assert(q[0] == 34);
    assert(s[i] == 34);
    assert forall|m: int| 0 <= m < lx implies s.subrange(i + 1, i + 1 + lx)[m] == dx[m] by {
        assert(q[1 + m] == dx[m]);
        assert(s[i + 1 + m] == q[1 + m]);
        assert(s.subrange(i + 1, i + 1 + lx)[m] == s[i + 1 + m]);
    }
    assert(s.subrange(i + 1, i + 1 + lx) =~= dx);
    assert(q[1 + lx] == crate::wire::SEP);
    assert(s[i + 1 + lx] == crate::wire::SEP);
    assert(!crate::wire::is_digit(s[i + 1 + lx]));
    crate::wire::lemma_parse_u_inverts(s, i + 1, c.x as nat);
    assert forall|m: int| 0 <= m < ly implies s.subrange(i + 2 + lx, i + 2 + lx + ly)[m]
        == dy[m] by {
        assert(q[2 + lx + m] == dy[m]);
        assert(s[i + 2 + lx + m] == q[2 + lx + m]);
        assert(s.subrange(i + 2 + lx, i + 2 + lx + ly)[m] == s[i + 2 + lx + m]);
    }
    assert(s.subrange(i + 2 + lx, i + 2 + lx + ly) =~= dy);
    assert(q[2 + lx + ly] == 34);
    assert(s[i + 2 + lx + ly] == 34);
    assert(!crate::wire::is_digit(s[i + 2 + lx + ly]));
    crate::wire::lemma_parse_u_inverts(s, i + 2 + lx, c.y as nat);
}

/// The neighbor-list image of two or more keys starts with its first key
/// and a comma.
pub proof fn lemma_nb_list_front(nbs: Seq<Coord>)
    requires
        nbs.len() >= 2,
    ensures
        nb_list_bytes(nbs) == quoted_key(nbs[0]) + seq![44u8] + nb_list_bytes(nbs.drop_first()),
    decreases nbs.len(),
{
    if nbs.len() == 2 {
        assert(nbs.drop_last() =~= seq![nbs[0]]);
        assert(nbs.drop_first() =~= seq![nbs[1]]);
        assert(nb_list_bytes(seq![nbs[0]]) == quoted_key(nbs[0]));
        assert(nb_list_bytes(seq![nbs[1]]) == quoted_key(nbs[1]));
        assert(nb_list_bytes(nbs) == nb_list_bytes(nbs.drop_last()) + seq![44u8] + quoted_key(
            nbs.last(),
        ));
        assert(nb_list_bytes(nbs) =~= quoted_key(nbs[0]) + seq![44u8] + nb_list_bytes(
            nbs.drop_first(),
        ));
    } else {
        let dl = nbs.drop_last();
        lemma_nb_list_front(dl);
        let df = nbs.drop_first();
        assert(dl[0] == nbs[0]);
        assert(dl.drop_first() =~= df.drop_last());
        assert(df.last() == nbs.last());
        assert(nb_list_bytes(nbs) == nb_list_bytes(dl) + seq![44u8] + quoted_key(nbs.last()));
        assert(nb_list_bytes(df) == nb_list_bytes(df.drop_last()) + seq![44u8] + quoted_key(
            df.last(),
        ));
        assert(nb_list_bytes(nbs) =~= quoted_key(nbs[0]) + seq![44u8] + nb_list_bytes(df));
    }
}

/// Parsing inverts printing for a neighbor list embedded at `i` and
/// followed by the closing bracket.
pub proof fn lemma_nb_list_inverts(s: Seq<u8>, i: int, nbs: Seq<Coord>)
    requires
        0 <= i,
        i + nb_list_bytes(nbs).len() < s.len(),
        s.subrange(i, i + nb_list_bytes(nbs).len() as int) == nb_list_bytes(nbs),
        s[i + nb_list_bytes(nbs).len()] == 93,
        forall|q: int|
            0 <= q < nbs.len() ==> (#[trigger] nbs[q]).x < 10000000 && nbs[q].y < 10000000,
    ensures
        spec_parse_nb_list(s, i) == Some((nbs, i + nb_list_bytes(nbs).len())),
    decreases nbs.len(),
{
    let b = nb_list_bytes(nbs);
    assert forall|m: int| 0 <= m < b.len() implies s[i + m] == #[trigger] b[m] by {
        assert(s.subrange(i, i + b.len() as int)[m] == s[i + m]);
    }
    if nbs.len() == 0 {
        assert(s[i] == 93);
    } else if nbs.len() == 1 {
        let q = quoted_key(nbs[0]);
        assert(b == q);
        assert(b[0] == 34);
        assert(s[i + 0] == b[0]);
        assert(s[i] != 93);
        assert forall|m: int| 0 <= m < q.len() implies s.subrange(i, i + q.len() as int)[m]
            == q[m] by {
            assert(s[i + m] == b[m]);
            assert(s.subrange(i, i + q.len() as int)[m] == s[i + m]);
        }
        assert(s.subrange(i, i + q.len() as int) =~= q);
        lemma_qkey_inverts(s, i, nbs[0]);
        let j = i + q.len() as int;
        assert(s[j] == 93);
        assert(seq![nbs[0]] =~= nbs);
    } else {
        lemma_nb_list_front(nbs);
        let q = quoted_key(nbs[0]);
        let df = nbs.drop_first();
        let dfb = nb_list_bytes(df);
        let ql = q.len() as int;
        assert(b[0] == 34);
        assert(s[i + 0] == b[0]);
        assert(s[i] != 93);
        assert forall|m: int| 0 <= m < ql implies s.subrange(i, i + ql)[m] == q[m] by {
            assert(b[m] == q[m]);
            assert(s[i + m] == b[m]);
            assert(s.subrange(i, i + ql)[m] == s[i + m]);
        }
        assert(s.subrange(i, i + ql) =~= q);
        lemma_qkey_inverts(s, i, nbs[0]);
        let j = i + ql;
        assert(b[ql] == 44);
        assert(s[i + ql] == b[ql]);
        assert(s[j] == 44);
        assert forall|m: int| 0 <= m < dfb.len() implies s.subrange(j + 1, j + 1 + dfb.len() as int)[m]
            == dfb[m] by {
            assert(b[ql + 1 + m] == dfb[m]);
            assert(s[i + ql + 1 + m] == b[ql + 1 + m]);
            assert(s.subrange(j + 1, j + 1 + dfb.len() as int)[m] == s[j + 1 + m]);
        }
        assert(s.subrange(j + 1, j + 1 + dfb.len() as int) =~= dfb);
        assert forall|q2: int| 0 <= q2 < df.len() implies (#[trigger] df[q2]).x < 10000000
            && df[q2].y < 10000000 by {
            assert(df[q2] == nbs[q2 + 1]);
        }
        assert(s[j + 1 + dfb.len()] == 93) by {
            assert(b.len() == ql + 1 + dfb.len());
        }
        lemma_nb_list_inverts(s, j + 1, df);
        assert(seq![nbs[0]] + df =~= nbs);
    }
}

/// Parsing inverts printing for a record embedded at `i`.
#[verifier::rlimit(100)]
pub proof fn lemma_record_inverts(s: Seq<u8>, i: int, x: nat, y: nat, code: u8, nbs: Seq<Coord>)
    requires
        0 <= i,
        i + record_bytes(x, y, code, nbs).len() <= s.len(),
        s.subrange(i, i + record_bytes(x, y, code, nbs).len() as int) == record_bytes(
            x,
            y,
            code,
            nbs,
        ),
        x < 10000000,
        y < 10000000,
        forall|q: int|
            0 <= q < nbs.len() ==> (#[trigger] nbs[q]).x < 10000000 && nbs[q].y < 10000000,
    ensures
        spec_parse_record(s, i) == Some(
            ((x as int, y as int, code, nbs), i + record_bytes(x, y, code, nbs).len()),
        ),
{
    let b = record_bytes(x, y, code, nbs);
    let dx = spec_dec(x);
    let dy = spec_dec(y);
    let nb = nb_list_bytes(nbs);
    let lx = dx.len() as int;
    let ly = dy.len() as int;
    let ln = nb.len() as int;
    assert forall|m: int| 0 <= m < b.len() implies s[i + m] == #[trigger] b[m] by {
        assert(s.subrange(i, i + b.len() as int)[m] == s[i + m]);
    }
    // {"x":
    assert forall|m: int| 0 <= m < 5 implies s.subrange(i, i + 5)[m] == lit_open_x()[m] by {
        assert(b[m] == lit_open_x()[m]);
        assert(s[i + m] == b[m]);
        assert(s.subrange(i, i + 5)[m] == s[i + m]);
    }
    assert(s.subrange(i, i + 5) =~= lit_open_x());
    lemma_expect_inverts(s, i, lit_open_x());
    let j1 = i + 5;
    // the x coordinate
    assert forall|m: int| 0 <= m < lx implies s.subrange(j1, j1 + lx)[m] == dx[m] by {
        assert(b[5 + m] == dx[m]);
        assert(s[i + 5 + m] == b[5 + m]);
        assert(s.subrange(j1, j1 + lx)[m] == s[j1 + m]);
    }
    assert(s.subrange(j1, j1 + lx) =~= dx);
    assert(b[5 + lx] == 44);
    assert(s[j1 + lx] == 44);
    assert(!crate::wire::is_digit(s[j1 + lx]));
    crate::wire::lemma_parse_u_inverts(s, j1, x);
    let j2 = j1 + lx;
    // ,"y":
    assert forall|m: int| 0 <= m < 5 implies s.subrange(j2, j2 + 5)[m] == lit_comma_y()[m] by {
        assert(b[5 + lx + m] == lit_comma_y()[m]);
        assert(s[i + 5 + lx + m] == b[5 + lx + m]);
        assert(s.subrange(j2, j2 + 5)[m] == s[j2 + m]);
    }
    assert(s.subrange(j2, j2 + 5) =~= lit_comma_y());
    lemma_expect_inverts(s, j2, lit_comma_y());
    let j3 = j2 + 5;
    // the y coordinate
    assert forall|m: int| 0 <= m < ly implies s.subrange(j3, j3 + ly)[m] == dy[m] by {
        assert(b[10 + lx + m] == dy[m]);
        assert(s[i + 10 + lx + m] == b[10 + lx + m]);
        assert(s.subrange(j3, j3 + ly)[m] == s[j3 + m]);
    }
    assert(s.subrange(j3, j3 + ly) =~= dy);
    assert(b[10 + lx + ly] == 44);
    assert(s[j3 + ly] == 44);
    assert(!crate::wire::is_digit(s[j3 + ly]));
    crate::wire::lemma_parse_u_inverts(s, j3, y);
    let j4 = j3 + ly;
    // ,"c":"
    assert forall|m: int| 0 <= m < 6 implies s.subrange(j4, j4 + 6)[m] == lit_comma_c()[m] by {
        assert(b[10 + lx + ly + m] == lit_comma_c()[m]);
        assert(s[i + 10 + lx + ly + m] == b[10 + lx + ly + m]);
        assert(s.subrange(j4, j4 + 6)[m] == s[j4 + m]);
    }
    assert(s.subrange(j4, j4 + 6) =~= lit_comma_c());
    lemma_expect_inverts(s, j4, lit_comma_c());
    let j5 = j4 + 6;
    // the code byte
    assert(b[16 + lx + ly] == code);
    assert(s[j5] == code);
    // ","neighbors":[
    assert forall|m: int| 0 <= m < 15 implies s.subrange(j5 + 1, j5 + 16)[m]
        == lit_neighbors()[m] by {
        assert(b[17 + lx + ly + m] == lit_neighbors()[m]);
        assert(s[i + 17 + lx + ly + m] == b[17 + lx + ly + m]);
        assert(s.subrange(j5 + 1, j5 + 16)[m] == s[j5 + 1 + m]);
    }
    assert(s.subrange(j5 + 1, j5 + 16) =~= lit_neighbors());
    lemma_expect_inverts(s, j5 + 1, lit_neighbors());
    let j6 = j5 + 16;
    // the neighbor list, ended by the closing bracket
    assert forall|m: int| 0 <= m < ln implies s.subrange(j6, j6 + ln)[m] == nb[m] by {
        assert(b[32 + lx + ly + m] == nb[m]);
        assert(s[i + 32 + lx + ly + m] == b[32 + lx + ly + m]);
        assert(s.subrange(j6, j6 + ln)[m] == s[j6 + m]);
    }
    assert(s.subrange(j6, j6 + ln) =~= nb);
    assert(b[32 + lx + ly + ln] == 93);
    assert(s[j6 + ln] == 93);
    lemma_nb_list_inverts(s, j6, nbs);
    let j7 = j6 + ln;
    // ]}
    assert forall|m: int| 0 <= m < 2 implies s.subrange(j7, j7 + 2)[m] == lit_close()[m] by {
        assert(b[32 + lx + ly + ln + m] == lit_close()[m]);
        assert(s[i + 32 + lx + ly + ln + m] == b[32 + lx + ly + ln + m]);
        assert(s.subrange(j7, j7 + 2)[m] == s[j7 + m]);
    }
    assert(s.subrange(j7, j7 + 2) =~= lit_close());
    lemma_expect_inverts(s, j7, lit_close());
}

/// The stored images of tiles `k .. n`, front first.
pub open spec fn tiles_from(v: GridV, k: int, n: int) -> Seq<u8>
    decreases n - k,
{
    if k >= n {
        Seq::empty()
    } else {
        tile_entry_bytes(v, k) + tiles_from(v, k + 1, n)
    }
}

pub proof fn lemma_tiles_from_snoc(v: GridV, k: int, n: int)
    requires
        k <= n,
    ensures
        tiles_from(v, k, n + 1) == tiles_from(v, k, n) + tile_entry_bytes(v, n),
    decreases n - k,
{
    if k >= n {
        assert(tiles_from(v, k + 1, n + 1) == Seq::<u8>::empty());
        assert(tiles_from(v, k, n) == Seq::<u8>::empty());
        assert(tiles_from(v, k, n + 1) =~= tiles_from(v, k, n) + tile_entry_bytes(v, n));
    } else {
        lemma_tiles_from_snoc(v, k + 1, n);
        assert(tiles_from(v, k, n + 1) =~= tiles_from(v, k, n) + tile_entry_bytes(v, n));
    }
}

/// The back-recursive and front-recursive spellings of the tile section
/// agree.
pub proof fn lemma_tiles_split(v: GridV, n: int)
    requires
        0 <= n,
    ensures
        tiles_entries(v, n) == tiles_from(v, 0, n),
    decreases n,
{
    if n > 0 {
        lemma_tiles_split(v, n - 1);
        lemma_tiles_from_snoc(v, 0, n - 1);
        assert(tiles_entries(v, n) =~= tiles_from(v, 0, n));
    }
}

/// A tile type's storage code survives the trip through a byte.
pub proof fn lemma_code_byte_char(k: TileKind)
    ensures
        (code_byte(k) as char) == spec_char_code(k),
{
}

/// Parsing inverts printing for the tile section embedded at `i`.
#[verifier::rlimit(100)]
pub proof fn lemma_tiles_inverts(s: Seq<u8>, i: int, v: GridV, k: int)
    requires
        wf(v),
        codec_safe(v),
        0 <= k <= v.tiles.len(),
        0 <= i,
        i + tiles_from(v, k, v.tiles.len() as int).len() <= s.len(),
        s.subrange(i, i + tiles_from(v, k, v.tiles.len() as int).len() as int) == tiles_from(
            v,
            k,
            v.tiles.len() as int,
        ),
    ensures
        spec_parse_tiles(s, i, v.size_x, v.size_y, k, v.tiles.len() as int) == Some(
            (
                v.tiles.subrange(k, v.tiles.len() as int),
                i + tiles_from(v, k, v.tiles.len() as int).len(),
            ),
        ),
    decreases v.tiles.len() - k,
{
    let n = v.tiles.len() as int;
    if k >= n {
        assert(v.tiles.subrange(k, n) =~= Seq::empty());
    } else {
        let b = tiles_from(v, k, n);
        let t = v.tiles[k];
        let e = tile_entry_bytes(v, k);
        let rest = tiles_from(v, k + 1, n);
        lemma_index_to_coord(v, k);
        let ex = k % v.size_x;
        let ey = k / v.size_x;
        assert(t.x == ex && t.y == ey);
        let kb = key_bytes(t.x as nat, t.y as nat);
        let head = seq![44u8, 34u8] + kb + seq![34u8, 58u8];
        let hl = head.len() as int;
        let rb = record_bytes(t.x as nat, t.y as nat, code_byte(t.kind), t.neighbors);
        assert(e == head + rb);
        assert forall|m: int| 0 <= m < b.len() implies s[i + m] == #[trigger] b[m] by {
            assert(s.subrange(i, i + b.len() as int)[m] == s[i + m]);
        }
        assert forall|m: int| 0 <= m < hl implies s.subrange(i, i + hl)[m] == head[m] by {
            assert(b[m] == e[m]);
            assert(e[m] == head[m]);
            assert(s[i + m] == b[m]);
            assert(s.subrange(i, i + hl)[m] == s[i + m]);
        }
        assert(s.subrange(i, i + hl) =~= head);
        lemma_expect_inverts(s, i, head);
        let j1 = i + hl;
        assert forall|m: int| 0 <= m < rb.len() implies s.subrange(j1, j1 + rb.len() as int)[m]
            == rb[m] by {
            assert(b[hl + m] == e[hl + m]);
            assert(e[hl + m] == rb[m]);
            assert(s[i + hl + m] == b[hl + m]);
            assert(s.subrange(j1, j1 + rb.len() as int)[m] == s[j1 + m]);
        }
        assert(s.subrange(j1, j1 + rb.len() as int) =~= rb);
        assert forall|q: int| 0 <= q < t.neighbors.len() implies (#[trigger] t.neighbors[q]).x
            < 10000000 && t.neighbors[q].y < 10000000 by {
            assert(v.contains_coord(v.tiles[k].neighbors[q]));
        }
        lemma_record_inverts(s, j1, t.x as nat, t.y as nat, code_byte(t.kind), t.neighbors);
        let j2 = j1 + rb.len() as int;
        lemma_code_byte_char(t.kind);
        assert(valid_kind_code(code_byte(t.kind)));
        assert(kind_of_code(code_byte(t.kind)) == t.kind);
        assert(nbs_ok(t.neighbors, v.size_x, v.size_y)) by {
            assert forall|q: int| 0 <= q < t.neighbors.len() implies (#[trigger] t.neighbors[q]).x
                < v.size_x && t.neighbors[q].y < v.size_y by {
                assert(v.contains_coord(v.tiles[k].neighbors[q]));
            }
        }
        assert forall|m: int| 0 <= m < rest.len() implies s.subrange(
            j2,
            j2 + rest.len() as int,
        )[m] == rest[m] by {
            assert(b[hl + rb.len() + m] == rest[m]);
            assert(s[i + hl + rb.len() + m] == b[hl + rb.len() + m]);
            assert(s.subrange(j2, j2 + rest.len() as int)[m] == s[j2 + m]);
        }
        assert(s.subrange(j2, j2 + rest.len() as int) =~= rest);
        lemma_tiles_inverts(s, j2, v, k + 1);
        assert(seq![
            crate::tile::TileV {
                x: ex,
                y: ey,
                kind: kind_of_code(code_byte(t.kind)),
                neighbors: t.neighbors,
            },
        ] + v.tiles.subrange(k + 1, n) =~= v.tiles.subrange(k, n));
    }
}

/// The decoder finds the three metadata entries of a stored grid where
/// the encoder put them.
#[verifier::rlimit(100)]
proof fn lemma_decode_header(v: GridV)
    requires
        wf(v),
        codec_safe(v),
    ensures
        ({
            let s = encode_bytes(v);
            let h0 = lit_header_mapsize();
            let r0 = record_bytes(v.size_x as nat, v.size_y as nat, 36u8, Seq::empty());
            let h1 = lit_header_floor();
            let r1 = record_bytes(
                v.size_x as nat,
                v.size_y as nat,
                code_byte(v.default_floor),
                Seq::empty(),
            );
            let h2 = lit_header_wall();
            let r2 = record_bytes(
                v.size_x as nat,
                v.size_y as nat,
                code_byte(v.default_wall),
                Seq::empty(),
            );
            let o0 = h0.len() as int;
            let o1 = o0 + r0.len() as int;
            let o2 = o1 + h1.len() as int;
            let o3 = o2 + r1.len() as int;
            let o4 = o3 + h2.len() as int;
            let o5 = o4 + r2.len() as int;
            &&& spec_expect(s, 0, h0) == Some(o0)
            &&& spec_parse_record(s, o0) == Some(
                ((v.size_x, v.size_y, 36u8, Seq::<Coord>::empty()), o1),
            )
            &&& spec_expect(s, o1, h1) == Some(o2)
            &&& spec_parse_record(s, o2) == Some(
                ((v.size_x, v.size_y, code_byte(v.default_floor), Seq::<Coord>::empty()), o3),
            )
            &&& spec_expect(s, o3, h2) == Some(o4)
            &&& spec_parse_record(s, o4) == Some(
                ((v.size_x, v.size_y, code_byte(v.default_wall), Seq::<Coord>::empty()), o5),
            )
        }),
{
    let s = encode_bytes(v);
    let n = v.tiles.len() as int;
    let h0 = lit_header_mapsize();
    let r0 = record_bytes(v.size_x as nat, v.size_y as nat, 36u8, Seq::empty());
    let h1 = lit_header_floor();
    let r1 = record_bytes(
        v.size_x as nat,
        v.size_y as nat,
        code_byte(v.default_floor),
        Seq::empty(),
    );
    let h2 = lit_header_wall();
    let r2 = record_bytes(
        v.size_x as nat,
        v.size_y as nat,
        code_byte(v.default_wall),
        Seq::empty(),
    );
    lemma_tiles_split(v, n);
    let tb = tiles_from(v, 0, n);
    assert(s == h0 + r0 + h1 + r1 + h2 + r2 + tb + seq![125u8]);
    let o0 = h0.len() as int;
    let o1 = o0 + r0.len() as int;
    let o2 = o1 + h1.len() as int;
    let o3 = o2 + r1.len() as int;
    let o4 = o3 + h2.len() as int;
    let o5 = o4 + r2.len() as int;
    assert forall|m: int| 0 <= m < h0.len() implies s.subrange(0, o0)[m] == h0[m] by {
        assert(s[m] == h0[m]);
        assert(s.subrange(0, o0)[m] == s[m]);
    }
    assert(s.subrange(0, o0) =~= h0);
    lemma_expect_inverts(s, 0, h0);
    assert forall|m: int| 0 <= m < r0.len() implies s.subrange(o0, o1)[m] == r0[m] by {
        assert(s[o0 + m] == r0[m]);
        assert(s.subrange(o0, o1)[m] == s[o0 + m]);
    }
    assert(s.subrange(o0, o1) =~= r0);
    lemma_record_inverts(s, o0, v.size_x as nat, v.size_y as nat, 36u8, Seq::empty());
    assert forall|m: int| 0 <= m < h1.len() implies s.subrange(o1, o2)[m] == h1[m] by {
        assert(s[o1 + m] == h1[m]);
        assert(s.subrange(o1, o2)[m] == s[o1 + m]);
    }
    assert(s.subrange(o1, o2) =~= h1);
    lemma_expect_inverts(s, o1, h1);
    assert forall|m: int| 0 <= m < r1.len() implies s.subrange(o2, o3)[m] == r1[m] by {
        assert(s[o2 + m] == r1[m]);
        assert(s.subrange(o2, o3)[m] == s[o2 + m]);
    }
    assert(s.subrange(o2, o3) =~= r1);
    lemma_record_inverts(
        s,
        o2,
        v.size_x as nat,
        v.size_y as nat,
        code_byte(v.default_floor),
        Seq::empty(),
    );
    assert forall|m: int| 0 <= m < h2.len() implies s.subrange(o3, o4)[m] == h2[m] by {
        assert(s[o3 + m] == h2[m]);
        assert(s.subrange(o3, o4)[m] == s[o3 + m]);
    }
    assert(s.subrange(o3, o4) =~= h2);
    lemma_expect_inverts(s, o3, h2);
    assert forall|m: int| 0 <= m < r2.len() implies s.subrange(o4, o5)[m] == r2[m] by {
        assert(s[o4 + m] == r2[m]);
        assert(s.subrange(o4, o5)[m] == s[o4 + m]);
    }
    assert(s.subrange(o4, o5) =~= r2);
    lemma_record_inverts(
        s,
        o4,
        v.size_x as nat,
        v.size_y as nat,
        code_byte(v.default_wall),
        Seq::empty(),
    );
}

/// Parsing inverts printing for a whole grid: decoding the encoder's
/// output yields the grid that was stored.
#[verifier::rlimit(100)]
pub proof fn lemma_decode_inverts(v: GridV)
    requires
        wf(v),
        codec_safe(v),
    ensures
        spec_decode(encode_bytes(v)) == Some(v),
{
    let s = encode_bytes(v);
    let n = v.tiles.len() as int;
    let h0 = lit_header_mapsize();
    let r0 = record_bytes(v.size_x as nat, v.size_y as nat, 36u8, Seq::empty());
    let h1 = lit_header_floor();
    let r1 = record_bytes(
        v.size_x as nat,
        v.size_y as nat,
        code_byte(v.default_floor),
        Seq::empty(),
    );
    let h2 = lit_header_wall();
    let r2 = record_bytes(
        v.size_x as nat,
        v.size_y as nat,
        code_byte(v.default_wall),
        Seq::empty(),
    );
    lemma_tiles_split(v, n);
    let tb = tiles_from(v, 0, n);
    assert(s == h0 + r0 + h1 + r1 + h2 + r2 + tb + seq![125u8]);
    let o0 = h0.len() as int;
    let o1 = o0 + r0.len() as int;
    let o2 = o1 + h1.len() as int;
    let o3 = o2 + r1.len() as int;
    let o4 = o3 + h2.len() as int;
    let o5 = o4 + r2.len() as int;
    let o6 = o5 + tb.len() as int;
    lemma_decode_header(v);
    lemma_code_byte_char(v.default_floor);
    lemma_code_byte_char(v.default_wall);
    assert forall|m: int| 0 <= m < tb.len() implies s.subrange(o5, o6)[m] == tb[m] by {
        assert(s[o5 + m] == tb[m]);
        assert(s.subrange(o5, o6)[m] == s[o5 + m]);
    }
    assert(s.subrange(o5, o6) =~= tb);
    lemma_tiles_inverts(s, o5, v, 0);
    assert(s[o6] == 125);
    assert(o6 + 1 == s.len());
    assert(v.tiles.subrange(0, n) =~= v.tiles);
    assert(spec_decode_header(s) == Some(
        ((v.size_x, v.size_y, code_byte(v.default_floor), code_byte(v.default_wall)), o5),
    ));
    let decoded = spec_decode(s);
    assert(decoded == Some(
        GridV {
            size_x: v.size_x,
            size_y: v.size_y,
            tiles: v.tiles,
            default_floor: kind_of_code(code_byte(v.default_floor)),
            default_wall: kind_of_code(code_byte(v.default_wall)),
        },
    ));
}





/// Checks that `lit` sits at position `i` of `s`.
fn expect_bytes(s: &[u8], i: usize, lit: &Vec<u8>) -> (r: Option<usize>)
    requires
        i <= s@.len(),
    ensures
        match r {
            Some(j) => spec_expect(s@, i as int, lit@) == Some(j as int) && i <= j <= s@.len(),
            None => spec_expect(s@, i as int, lit@) is None,
        },
{
    let n = lit.len();
    let slen = s.len();
    if slen - i < n {
        return None;
    }
    let mut k: usize = 0;
    while k < n
        invariant
            k <= n,
            n == lit@.len(),
            slen == s@.len(),
            i + n <= slen,
            forall|m: int| 0 <= m < k ==> s@[i + m] == lit@[m],
        decreases n - k,
    {
        if s[i + k] != lit[k] {
            proof {
                assert(s@.subrange(i as int, i + n) != lit@) by {
                    assert(s@.subrange(i as int, i + n)[k as int] == s@[i + k]);
                }
            }
            return None;
        }
        k = k + 1;
    }
    proof {
        assert forall|m: int| 0 <= m < n implies s@.subrange(i as int, i + n)[m] == lit@[m] by {
            assert(s@.subrange(i as int, i + n)[m] == s@[i + m]);
        }
        assert(s@.subrange(i as int, i + n) =~= lit@);
    }
    Some(i + n)
}

/// Reads a quoted key at position `i`.
fn parse_qkey(s: &[u8], i: usize) -> (r: Option<(Coord, usize)>)
    requires
        i <= s@.len(),
    ensures
        match r {
            Some((c, j)) => spec_parse_qkey(s@, i as int) == Some((c, j as int)) && i < j
                <= s@.len(),
            None => spec_parse_qkey(s@, i as int) is None,
        },
{
    if i >= s.len() || s[i] != 34 {
        return None;
    }
    match crate::wire::parse_u(s, i + 1) {
        Some((x, j)) => {
            if j < s.len() && s[j] == crate::wire::SEP {
                match crate::wire::parse_u(s, j + 1) {
                    Some((y, k)) => {
                        if k < s.len() && s[k] == 34 {
                            Some((Coord { x, y }, k + 1))
                        } else {
                            None
                        }
                    },
                    None => None,
                }
            } else {
                None
            }
        },
        None => None,
    }
}

/// Reads a comma-separated list of quoted keys ending before a `]`.
fn parse_nb_list(s: &[u8], i: usize) -> (r: Option<(Vec<Coord>, usize)>)
    requires
        i <= s@.len(),
    ensures
        match r {
            Some((v, j)) => spec_parse_nb_list(s@, i as int) == Some((v@, j as int)) && i <= j
                <= s@.len(),
            None => spec_parse_nb_list(s@, i as int) is None,
        },
{
    if i >= s.len() {
        return None;
    }
    if s[i] == 93 {
        let empty: Vec<Coord> = Vec::new();
        return Some((empty, i));
    }
    let mut acc: Vec<Coord> = Vec::new();
    let mut cur = i;
    loop
        invariant
            i <= cur <= s@.len(),
            cur < s@.len(),
            s@[cur as int] != 93 || acc@.len() > 0,
            ({
                let whole = spec_parse_nb_list(s@, i as int);
                let rest = spec_parse_nb_list(s@, cur as int);
                whole == match rest {
                    Some((tail, j)) => {
                        if tail.len() == 0 {
                            None::<(Seq<Coord>, int)>
                        } else {
                            Some((acc@ + tail, j))
                        }
                    },
                    None => None,
                }
            }),
        decreases s@.len() - cur,
    {
        match parse_qkey(s, cur) {
            Some((c, j)) => {
                acc.push(c);
                if j < s.len() && s[j] == 44 {
                    proof {
                        assert(s@[cur as int] == 34);
                        assert(spec_parse_nb_list(s@, cur as int) == (match spec_parse_nb_list(
                            s@,
                            j + 1,
                        ) {
                            Some((t2, k2)) => {
                                if t2.len() == 0 {
                                    None::<(Seq<Coord>, int)>
                                } else {
                                    Some((seq![c] + t2, k2))
                                }
                            },
                            None => None,
                        }));
                        assert forall|t2: Seq<Coord>| true implies acc@.drop_last() + (seq![c]
                            + t2) =~= acc@ + t2 by {}
                    }
                    if j + 1 >= s.len() {
                        return None;
                    }
                    cur = j + 1;
                } else {
                    proof {
                        assert(s@[cur as int] == 34);
                        assert(spec_parse_nb_list(s@, cur as int) == Some((seq![c], j as int)));
                        assert(acc@.drop_last() + seq![c] =~= acc@);
                    }
                    return Some((acc, j));
                }
            },
            None => {
                proof {
                    if s@[cur as int] == 93 {
                        assert(spec_parse_nb_list(s@, cur as int) == Some(
                            (Seq::<Coord>::empty(), cur as int),
                        ));
                        assert(acc@ + Seq::<Coord>::empty() =~= acc@);
                    }
                }
                return None;
            },
        }
    }
}

/// Reads one tile record at position `i`.
fn parse_record(s: &[u8], i: usize) -> (r: Option<((usize, usize, u8, Vec<Coord>), usize)>)
    requires
        i <= s@.len(),
    ensures
        match r {
            Some(((x, y, code, nbs), j)) => spec_parse_record(s@, i as int) == Some(
                ((x as int, y as int, code, nbs@), j as int),
            ) && i <= j <= s@.len(),
            None => spec_parse_record(s@, i as int) is None,
        },
{
    let l1 = make_lit_open_x();
    let l2 = make_lit_comma_y();
    let l3 = make_lit_comma_c();
    let l4 = make_lit_neighbors();
    let l5 = make_lit_close();
    match expect_bytes(s, i, &l1) {
        Some(j1) => match crate::wire::parse_u(s, j1) {
            Some((x, j2)) => match expect_bytes(s, j2, &l2) {
                Some(j3) => match crate::wire::parse_u(s, j3) {
                    Some((y, j4)) => match expect_bytes(s, j4, &l3) {
                        Some(j5) => {
                            if j5 < s.len() {
                                let code = s[j5];
                                match expect_bytes(s, j5 + 1, &l4) {
                                    Some(j6) => match parse_nb_list(s, j6) {
                                        Some((nbs, j7)) => match expect_bytes(s, j7, &l5) {
                                            Some(j8) => Some(((x, y, code, nbs), j8)),
                                            None => None,
                                        },
                                        None => None,
                                    },
                                    None => None,
                                }
                            } else {
                                None
                            }
                        },
                        None => None,
                    },
                    None => None,
                },
                None => None,
            },
            None => None,
        },
        None => None,
    }
}

/// Builds `{"x":` as bytes.
fn make_lit_open_x() -> (v: Vec<u8>)
    ensures
        v@ == lit_open_x(),
{
    let mut v: Vec<u8> = Vec::new();
    v.push(123);
    v.push(34);
    v.push(120);
    v.push(34);
    v.push(58);
    assert(v@ =~= lit_open_x());
    v
}

/// Builds `,"y":` as bytes.
fn make_lit_comma_y() -> (v: Vec<u8>)
    ensures
        v@ == lit_comma_y(),
{
    let mut v: Vec<u8> = Vec::new();
    v.push(44);
    v.push(34);
    v.push(121);
    v.push(34);
    v.push(58);
    assert(v@ =~= lit_comma_y());
    v
}

/// Builds `,"c":"` as bytes.
fn make_lit_comma_c() -> (v: Vec<u8>)
    ensures
        v@ == lit_comma_c(),
{
    let mut v: Vec<u8> = Vec::new();
    v.push(44);
    v.push(34);
    v.push(99);
    v.push(34);
    v.push(58);
    v.push(34);
    assert(v@ =~= lit_comma_c());
    v
}

/// Builds `","neighbors":[` as bytes.
fn make_lit_neighbors() -> (v: Vec<u8>)
    ensures
        v@ == lit_neighbors(),
{
    let mut v: Vec<u8> = Vec::new();
    v.push(34);
    v.push(44);
    v.push(34);
    v.push(110);
    v.push(101);
    v.push(105);
    v.push(103);
    v.push(104);
    v.push(98);
    v.push(111);
    v.push(114);
    v.push(115);
    v.push(34);
    v.push(58);
    v.push(91);
    assert(v@ =~= lit_neighbors());
    v
}

/// Builds `]}` as bytes.
fn make_lit_close() -> (v: Vec<u8>)
    ensures
        v@ == lit_close(),
{
    let mut v: Vec<u8> = Vec::new();
    v.push(93);
    v.push(125);
    assert(v@ =~= lit_close());
    v
}

/// What decompressing a byte stream yields, if anything.  This is a
/// function of the bytes alone; `compress` promises to produce streams
/// that decompress to its input.
pub uninterp spec fn inflate_of(b: Seq<u8>) -> Option<Seq<u8>>;

/// What a stored byte stream holds, after optional decompression.
pub open spec fn spec_loaded(b: Seq<u8>, compressed: bool) -> Option<GridV> {
    if compressed {
        match inflate_of(b) {
            Some(p) => spec_decode(p),
            None => None,
        }
    } else {
        spec_decode(b)
    }
}

impl Grid {
    /// Relies on flate2's `GzEncoder` over a byte buffer: the compressed
    /// stream decompresses back to the input, and writing to a buffer
    /// cannot fail.
    #[verifier::external_body]
    pub fn compress(data: &[u8]) -> (r: Vec<u8>)
        ensures
            inflate_of(r@) == Some(data@),
    {
        let mut enc = flate2::write::GzEncoder::new(Vec::new(), flate2::Compression::default());
        let _ = enc.write_all(data);
        match enc.finish() {
            Ok(v) => v,
            Err(_) => Vec::new(),
        }
    }

    /// Relies on flate2's `GzDecoder` over a byte buffer: it yields the
    /// bytes the stream compresses, and errors exactly on streams that
    /// are not valid compressed data.
    #[verifier::external_body]
    pub fn decompress(data: &[u8]) -> (r: Option<Vec<u8>>)
        ensures
            match r {
                Some(v) => inflate_of(data@) == Some(v@),
                None => inflate_of(data@) is None,
            },
    {
        let mut out: Vec<u8> = Vec::new();
        let mut dec = flate2::read::GzDecoder::new(data);
        match dec.read_to_end(&mut out) {
            Ok(_) => Some(out),
            Err(_) => None,
        }
    }

    /// Serializes the grid for storage, optionally compressed.  Loading
    /// the result gives the grid back, as long as every tile type in it
    /// survives the code table (roads are stored as floors).
    pub fn to_bytes(&self, compression: bool) -> (r: Vec<u8>)
        requires
            wf(self@),
        ensures
            !compression ==> r@ == encode_bytes(self@),
            compression ==> inflate_of(r@) == Some(encode_bytes(self@)),
            codec_safe(self@) ==> spec_loaded(r@, compression) == Some(self@),
    {
        proof {
            if codec_safe(self@) {
                lemma_decode_inverts(self@);
            }
        }
        let plain = self.encode_tileset();
        if compression {
            Grid::compress(plain.as_slice())
        } else {
            plain
        }
    }

    /// Reads a stored grid back, decompressing first when asked to.  The
    /// result is well-formed; a stream that does not hold a grid is
    /// rejected.
    pub fn from_bytes(data: &[u8], compression: bool) -> (r: Result<Grid, CodecError>)
        ensures
            match spec_loaded(data@, compression) {
                Some(v) => r matches Ok(g) && g@ == v && wf(g@),
                None => r is Err,
            },
    {
        if compression {
            match Grid::decompress(data) {
                Some(plain) => Grid::decode_tileset(plain.as_slice()),
                None => Err(CodecError::Decompress),
            }
        } else {
            Grid::decode_tileset(data)
        }
    }

    /// Reads the three metadata entries at the head of a stored grid.
    #[verifier::rlimit(100)]
    fn decode_header(s: &[u8]) -> (r: Result<((usize, usize, u8, u8), usize), CodecError>)
        ensures
            match spec_decode_header(s@) {
                Some(((sx, sy, fcode, wcode), j)) => r matches Ok(((gx, gy, gf, gw), gj))
                    && gx as int == sx && gy as int == sy && gf == fcode && gw == wcode && gj as int
                    == j && gj <= s@.len() && 1 <= gx <= crate::tile::MAX_DIM && 1 <= gy
                    <= crate::tile::MAX_DIM && valid_kind_code(gf) && valid_kind_code(gw),
                None => r matches Err(e) && e == CodecError::Parse,
            },
    {
        let mut h0: Vec<u8> = Vec::new();
        push_header_mapsize(&mut h0);
        let mut h1: Vec<u8> = Vec::new();
        push_header_floor(&mut h1);
        let mut h2: Vec<u8> = Vec::new();
        push_header_wall(&mut h2);
        let j0 = match expect_bytes(s, 0, &h0) {
            Some(j) => j,
            None => {
                return Err(CodecError::Parse);
            },
        };
        let (m0, j1) = match parse_record(s, j0) {
            Some(v) => v,
            None => {
                return Err(CodecError::Parse);
            },
        };
        let (sx, sy, mcode, mnbs) = m0;
        if !(1 <= sx && sx <= crate::tile::MAX_DIM && 1 <= sy && sy <= crate::tile::MAX_DIM
            && mcode == 36 && mnbs.len() == 0) {
            return Err(CodecError::Parse);
        }
        let j2 = match expect_bytes(s, j1, &h1) {
            Some(j) => j,
            None => {
                return Err(CodecError::Parse);
            },
        };
        let (m1, j3) = match parse_record(s, j2) {
            Some(v) => v,
            None => {
                return Err(CodecError::Parse);
            },
        };
        let (fx, fy, fcode, fnbs) = m1;
        if TileKind::from_char(fcode as char).is_none() {
            return Err(CodecError::Parse);
        }
        if !(fx == sx && fy == sy && fnbs.len() == 0) {
            return Err(CodecError::Parse);
        }
        let j4 = match expect_bytes(s, j3, &h2) {
            Some(j) => j,
            None => {
                return Err(CodecError::Parse);
            },
        };
        let (m2, j5) = match parse_record(s, j4) {
            Some(v) => v,
            None => {
                return Err(CodecError::Parse);
            },
        };
        let (wx, wy, wcode, wnbs) = m2;
        if TileKind::from_char(wcode as char).is_none() {
            return Err(CodecError::Parse);
        }
        if !(wx == sx && wy == sy && wnbs.len() == 0) {
            return Err(CodecError::Parse);
        }
        Ok(((sx, sy, fcode, wcode), j5))
    }

    /// Reads one tile entry at position `cur`, validated against its
    /// row-major index `k`, and appends the tile.
    #[verifier::rlimit(100)]
    fn decode_tile_entry(
        s: &[u8],
        cur: usize,
        k: usize,
        n: usize,
        sx: usize,
        sy: usize,
        tiles: &mut Vec<Tile>,
    ) -> (r: Result<usize, CodecError>)
        requires
            k < n,
            1 <= sx <= crate::tile::MAX_DIM,
            1 <= sy <= crate::tile::MAX_DIM,
            cur <= s@.len(),
            old(tiles)@.len() == k,
        ensures
            match r {
                Ok(j2) => {
                    let tv = final(tiles)@[k as int]@;
                    &&& j2 <= s@.len()
                    &&& final(tiles)@.len() == k + 1
                    &&& (forall|q: int|
                        0 <= q < k ==> #[trigger] final(tiles)@[q] == old(tiles)@[q])
                    &&& tv.x == k as int % (sx as int)
                    &&& tv.y == k as int / (sx as int)
                    &&& tv.neighbors.len() <= 8
                    &&& (forall|w: int|
                        0 <= w < tv.neighbors.len() ==> (#[trigger] tv.neighbors[w]).x < sx
                            && tv.neighbors[w].y < sy)
                    &&& spec_parse_tiles(s@, cur as int, sx as int, sy as int, k as int, n as int)
                        == (match spec_parse_tiles(
                        s@,
                        j2 as int,
                        sx as int,
                        sy as int,
                        k + 1,
                        n as int,
                    ) {
                        Some((rest, j)) => Some((seq![tv] + rest, j)),
                        None => None::<(Seq<crate::tile::TileV>, int)>,
                    })
                },
                Err(e) => e == CodecError::Parse && spec_parse_tiles(
                    s@,
                    cur as int,
                    sx as int,
                    sy as int,
                    k as int,
                    n as int,
                ) is None && final(tiles)@ == old(tiles)@,
            },
    {
        let ex = k % sx;
        let ey = k / sx;
        let mut kh: Vec<u8> = Vec::new();
        kh.push(44);
        kh.push(34);
        push_key(&mut kh, ex, ey);
        kh.push(34);
        kh.push(58);
        proof {
            assert(kh@ =~= seq![44u8, 34u8] + key_bytes(ex as nat, ey as nat) + seq![34u8, 58u8]);
        }
        let jh = match expect_bytes(s, cur, &kh) {
            Some(j) => j,
            None => {
                return Err(CodecError::Parse);
            },
        };
        let (rec, j2r) = match parse_record(s, jh) {
            Some(v) => v,
            None => {
                return Err(CodecError::Parse);
            },
        };
        let (x, y, code, nbs) = rec;
        let kind = match TileKind::from_char(code as char) {
            Some(kk) => kk,
            None => {
                return Err(CodecError::Parse);
            },
        };
        if !(x == ex && y == ey) {
            return Err(CodecError::Parse);
        }
        if nbs.len() > 8 {
            return Err(CodecError::Parse);
        }
        let mut w: usize = 0;
        let nm = nbs.len();
        let mut nb_ok = true;
        while w < nm
            invariant
                w <= nm,
                nm == nbs@.len(),
                1 <= sx,
                1 <= sy,
                nb_ok <==> (forall|q: int|
                    0 <= q < w ==> (#[trigger] nbs@[q]).x < sx && nbs@[q].y < sy),
            decreases nm - w,
        {
            let c = nbs[w];
            if !(c.x < sx && c.y < sy) {
                nb_ok = false;
            }
            w = w + 1;
        }
        if !nb_ok {
            return Err(CodecError::Parse);
        }
        tiles.push(Tile::new(ex, ey, kind, nbs));
        Ok(j2r)
    }

    /// Rebuilds a grid from its uncompressed stored image.
    #[verifier::rlimit(100)]
    pub fn decode_tileset(s: &[u8]) -> (r: Result<Grid, CodecError>)
        ensures
            match spec_decode(s@) {
                Some(v) => r matches Ok(g) && g@ == v && wf(g@),
                None => r matches Err(e) && e == CodecError::Parse,
            },
    {
        let ((sx, sy, fcode, wcode), j5) = match Grid::decode_header(s) {
            Ok(v) => v,
            Err(_) => {
                return Err(CodecError::Parse);
            },
        };
        let kf = match TileKind::from_char(fcode as char) {
            Some(k) => k,
            None => {
                return Err(CodecError::Parse);
            },
        };
        let kw = match TileKind::from_char(wcode as char) {
            Some(k) => k,
            None => {
                return Err(CodecError::Parse);
            },
        };
        proof {
            assert(sx * sy <= crate::tile::MAX_DIM * crate::tile::MAX_DIM) by (nonlinear_arith)
                requires
                    1 <= sx <= crate::tile::MAX_DIM,
                    1 <= sy <= crate::tile::MAX_DIM,
            ;
        }
        let n = sx * sy;
        let mut tiles: Vec<Tile> = Vec::new();
        let mut cur = j5;
        let mut k: usize = 0;
        while k < n
            invariant
                k <= n,
                n == sx * sy,
                1 <= sx <= crate::tile::MAX_DIM,
                1 <= sy <= crate::tile::MAX_DIM,
                cur <= s@.len(),
                tiles@.len() == k,
                forall|q: int|
                    0 <= q < k ==> {
                        let t = (#[trigger] tiles@[q])@;
                        t.x == q % (sx as int) && t.y == q / (sx as int) && t.neighbors.len() <= 8
                            && (forall|w: int|
                            0 <= w < t.neighbors.len() ==> (#[trigger] t.neighbors[w]).x < sx
                                && t.neighbors[w].y < sy)
                    },
                spec_decode_header(s@) == Some(
                    ((sx as int, sy as int, fcode, wcode), j5 as int),
                ),
                spec_parse_tiles(s@, j5 as int, sx as int, sy as int, 0, n as int) == (
                match spec_parse_tiles(s@, cur as int, sx as int, sy as int, k as int, n as int) {
                    Some((rest, j)) => Some((tiles@.map_values(|t: Tile| t@) + rest, j)),
                    None => None::<(Seq<crate::tile::TileV>, int)>,
                }),
            decreases n - k,
        {
            let ghost prev_tiles = tiles@;
            let j2 = match Grid::decode_tile_entry(s, cur, k, n, sx, sy, &mut tiles) {
                Ok(j) => j,
                Err(_) => {
                    return Err(CodecError::Parse);
                },
            };
            proof {
                assert(tiles@.map_values(|t: Tile| t@) =~= prev_tiles.map_values(|t: Tile| t@)
                    + seq![tiles@[k as int]@]);
                assert forall|rest: Seq<crate::tile::TileV>| true implies prev_tiles.map_values(
                    |t: Tile| t@,
                ) + (seq![tiles@[k as int]@] + rest) =~= tiles@.map_values(|t: Tile| t@)
                    + rest by {}
            }
            cur = j2;
            k = k + 1;
        }
        proof {
            assert(spec_parse_tiles(s@, cur as int, sx as int, sy as int, n as int, n as int)
                == Some((Seq::<crate::tile::TileV>::empty(), cur as int)));
            assert(tiles@.map_values(|t: Tile| t@) + Seq::<crate::tile::TileV>::empty()
                =~= tiles@.map_values(|t: Tile| t@));
        }
        if !(cur < s.len() && cur + 1 == s.len()) {
            return Err(CodecError::Parse);
        }
        if s[cur] != 125 {
            return Err(CodecError::Parse);
        }
        let g = Grid { size_x: sx, size_y: sy, tiles, default_floor: kf, default_wall: kw };
        proof {
            assert(spec_parse_tiles(s@, cur as int, sx as int, sy as int, n as int, n as int)
                == Some((Seq::<crate::tile::TileV>::empty(), cur as int)));
            assert(tiles@.map_values(|t: Tile| t@) + Seq::<crate::tile::TileV>::empty()
                =~= tiles@.map_values(|t: Tile| t@));
            let v = spec_decode(s@)->Some_0;
            assert(g@.tiles =~= v.tiles);
            assert(g@ == v);
            assert forall|i2: int, j2: int|
                0 <= i2 < g@.tiles.len() && 0 <= j2 < g@.tiles[i2].neighbors.len() implies g
                @.contains_coord(#[trigger] g@.tiles[i2].neighbors[j2]) by {}
            assert(wf(g@));
        }
        Ok(g)
    }
}

} // verus!
