//! Tiles named on the command line, each written `z/x/y`.

use vstd::prelude::*;
use crate::app_state::TileId;
use crate::comments::chars_of;
use crate::numbers::{text_from_chars, u32_from_decimal, u32_from_text};

verus! {

/// The pieces of `s` between the occurrences of `sep`, in order; there is
/// one piece more than there are separators, and pieces may be empty.
pub open spec fn pieces(s: Seq<char>, sep: char) -> Seq<Seq<char>>
    decreases s.len(),
{
    if s.len() == 0 {
        seq![Seq::empty()]
    } else {
        let init = pieces(s.drop_last(), sep);
        if s.last() == sep {
            init.push(Seq::empty())
        } else {
            init.update(init.len() - 1, init.last().push(s.last()))
        }
    }
}

/// The pieces `ps` joined with `sep` between each two.
pub open spec fn joined(ps: Seq<Seq<char>>, sep: char) -> Seq<char>
    decreases ps.len(),
{
    if ps.len() <= 1 {
        if ps.len() == 1 { ps[0] } else { Seq::empty() }
    } else {
        joined(ps.drop_last(), sep) + seq![sep] + ps.last()
    }
}

/// Splitting undoes joining: the pieces of `s`, joined with `sep`, give `s`
/// back, and no piece holds `sep`.
pub proof fn lemma_pieces_split(s: Seq<char>, sep: char)
    ensures
        pieces(s, sep).len() >= 1,
        joined(pieces(s, sep), sep) == s,
        forall|j: int| 0 <= j < pieces(s, sep).len() ==> !(#[trigger] pieces(s, sep)[j]).contains(sep),
    decreases s.len(),
{
    if s.len() == 0 {
        assert(joined(pieces(s, sep), sep) =~= s);
    } else {
        let init = s.drop_last();
        lemma_pieces_split(init, sep);
        let p0 = pieces(init, sep);
        let p = pieces(s, sep);
        if s.last() == sep {
            assert(p.drop_last() =~= p0);
            assert(joined(p, sep) =~= s);
            assert forall|j: int| 0 <= j < p.len() implies !(#[trigger] p[j]).contains(sep) by {
                if j < p0.len() {
                    assert(p[j] == p0[j]);
                }
            }
        } else {
            let n = p0.len() - 1;
            assert(p.drop_last() =~= p0.drop_last());
            assert(p.last() == p0.last().push(s.last()));
            assert(s =~= init.push(s.last()));
            if p0.len() == 1 {
                assert(p.len() == 1);
                assert(joined(p, sep) == p[0]);
                assert(joined(p0, sep) == p0[0]);
                assert(joined(p, sep) =~= s);
            } else {
                assert(p.len() > 1);
                assert(joined(p0, sep) == joined(p0.drop_last(), sep) + seq![sep] + p0.last());
                assert(joined(p, sep) == joined(p.drop_last(), sep) + seq![sep] + p.last());
                assert(joined(p, sep) =~= s);
            }
            assert forall|j: int| 0 <= j < p.len() implies !(#[trigger] p[j]).contains(sep) by {
                if j < n {
                    assert(p[j] == p0[j]);
                } else {
                    if p[j].contains(sep) {
                        let k = choose|k: int| 0 <= k < p[j].len() && p[j][k] == sep;
                        if k < p0[n].len() {
                            assert(p0[n][k] == sep);
                        }
                    }
                }
            }
        }
    }
}

/// The numbers that the pieces `ps` read as decimal `u32`s, in order; the
/// other pieces are skipped.
pub open spec fn numbers_of(ps: Seq<Seq<char>>) -> Seq<u32>
    decreases ps.len(),
{
    if ps.len() == 0 {
        Seq::empty()
    } else {
        let init = numbers_of(ps.drop_last());
        match u32_from_text(ps.last()) {
            Some(v) => init.push(v),
            None => init,
        }
    }
}

/// The tile that the argument `arg` names: the numbers among its
/// `/`-separated pieces, when there are exactly three, as zoom, x and y.
pub open spec fn tile_of_arg(arg: Seq<char>) -> Option<TileId> {
    let n = numbers_of(pieces(arg, '/'));
    if n.len() == 3 {
        Some(TileId { z: n[0], x: n[1], y: n[2] })
    } else {
        None
    }
}

/// The tiles named by `args`, in order; arguments that name no tile are
/// skipped.
pub open spec fn tiles_of_args(args: Seq<Seq<char>>) -> Seq<TileId>
    decreases args.len(),
{
    if args.len() == 0 {
        Seq::empty()
    } else {
        let init = tiles_of_args(args.drop_last());
        match tile_of_arg(args.last()) {
            Some(t) => init.push(t),
            None => init,
        }
    }
}

proof fn lemma_pieces_nonempty(s: Seq<char>, sep: char)
    ensures
        pieces(s, sep).len() >= 1,
    decreases s.len(),
{
    if s.len() > 0 {
        lemma_pieces_nonempty(s.drop_last(), sep);
    }
}

/// The numbers read from the `/`-separated pieces of `arg`.
fn numbers_in(arg: &str) -> (r: Vec<u32>)
    ensures
        r@ == numbers_of(pieces(arg@, '/')),
{
    let s = chars_of(arg);
    let n = s.len();
    let mut nums: Vec<u32> = Vec::new();
    let mut piece: Vec<char> = Vec::new();
    let mut i: usize = 0;
    assert(s@.take(0) =~= Seq::<char>::empty());
    assert(pieces(Seq::<char>::empty(), '/').drop_last() =~= Seq::<Seq<char>>::empty());
    while i < n
        invariant
            n == s@.len(),
            s@ == arg@,
            i <= n,
            pieces(s@.take(i as int), '/').len() >= 1,
            pieces(s@.take(i as int), '/').last() == piece@,
            nums@ == numbers_of(pieces(s@.take(i as int), '/').drop_last()),
        decreases n - i,
    {
        let ghost before = pieces(s@.take(i as int), '/');
        assert(s@.take(i + 1).drop_last() =~= s@.take(i as int));
        assert(s@.take(i + 1).last() == s@[i as int]);
        let c = s[i];
        if c == '/' {
            let text = text_from_chars(piece.as_slice());
            assert(before.push(Seq::<char>::empty()).drop_last() =~= before);
            match u32_from_decimal(text.as_str()) {
                Some(v) => nums.push(v),
                None => {},
            }
            piece = Vec::new();
            assert(piece@ =~= Seq::<char>::empty());
        } else {
            piece.push(c);
            let ghost after = before.update(before.len() - 1, before.last().push(c));
            assert(after.drop_last() =~= before.drop_last());
        }
        i = i + 1;
    }
    assert(s@.take(n as int) =~= s@);
    let text = text_from_chars(piece.as_slice());
    let ghost ps = pieces(s@, '/');
    proof {
        lemma_pieces_nonempty(s@, '/');
    }
    assert(ps.drop_last().push(ps.last()) =~= ps);
    match u32_from_decimal(text.as_str()) {
        Some(v) => nums.push(v),
        None => {},
    }
    nums
}

/// The tile that the argument `arg` (`z/x/y`) names, if it names one.
pub fn parse_tile_arg(arg: &str) -> (r: Option<TileId>)
    ensures
        r == tile_of_arg(arg@),
{
    let nums = numbers_in(arg);
    if nums.len() == 3 {
        Some(TileId::new(nums[0], nums[1], nums[2]))
    } else {
        None
    }
}

/// The tiles named by the command line arguments `args`, in order; an
/// argument that names no tile is skipped.
pub fn tiles_from_args(args: &[String]) -> (r: Vec<TileId>)
    ensures
        r@ == tiles_of_args(args@.map_values(|a: String| a@)),
{
    let ghost views = args@.map_values(|a: String| a@);
    let mut out: Vec<TileId> = Vec::new();
    let n = args.len();
    let mut i: usize = 0;
    while i < n
        invariant
            n == args@.len(),
            views == args@.map_values(|a: String| a@),
            i <= n,
            out@ == tiles_of_args(views.take(i as int)),
        decreases n - i,
    {
        assert(views.take(i + 1).drop_last() =~= views.take(i as int));
        assert(views.take(i + 1).last() == args@[i as int]@);
        match parse_tile_arg(args[i].as_str()) {
            Some(t) => out.push(t),
            None => {},
        }
        i = i + 1;
    }
    assert(views.take(n as int) =~= views);
    out
}

} // verus!
