//! How the files of a torrent, one after another, are cut into pieces and blocks.

use vstd::arithmetic::div_mod::*;
use vstd::arithmetic::mul::*;
use vstd::prelude::*;

verus! {

/// The greatest length of a block.
pub const MAX_BLOCK_LENGTH: usize = 16384;

/// A place in the torrent: a piece, and a position in it.
pub struct Cursor {
    pub piece: int,
    pub begin: int,
}

/// A part of a file that lies within one piece: where it is in the piece, and where in the
/// file.
pub struct Cut {
    pub file: int,
    pub piece: int,
    pub begin: int,
    pub offset: int,
    pub length: int,
}

/// The lesser of two numbers.
pub open spec fn min(a: int, b: int) -> int {
    if a <= b {
        a
    } else {
        b
    }
}

/// The length of the next cut: as long as a block may be, but neither beyond the piece nor
/// beyond the file.
pub open spec fn cut_length(piece_length: int, begin: int, left: int) -> int {
    min(min(MAX_BLOCK_LENGTH as int, piece_length - begin), left)
}

/// The place behind a cut of this length. A full piece gives way to the next.
pub open spec fn next_cursor(piece_length: int, at: Cursor, length: int) -> Cursor {
    if at.begin + length == piece_length {
        Cursor { piece: at.piece + 1, begin: 0 }
    } else {
        Cursor { piece: at.piece, begin: at.begin + length }
    }
}

/// The cuts of a file from position `offset` in it on. An empty file has one, of length zero.
pub open spec fn file_cuts(
    piece_length: int,
    at: Cursor,
    file: int,
    offset: int,
    length: int,
) -> Seq<Cut>
    decreases length - offset,
{
    let n = cut_length(piece_length, at.begin, length - offset);
    let cut = Cut { file, piece: at.piece, begin: at.begin, offset, length: n };
    if n <= 0 || offset + n >= length {
        seq![cut]
    } else {
        seq![cut] + file_cuts(
            piece_length,
            next_cursor(piece_length, at, n),
            file,
            offset + n,
            length,
        )
    }
}

/// The length of the first `k` files together.
pub open spec fn total_length(lengths: Seq<usize>, k: int) -> int
    decreases k,
{
    if k <= 0 {
        0
    } else {
        total_length(lengths, k - 1) + lengths[k - 1]
    }
}

/// The place where file `k` starts.
pub open spec fn file_start(piece_length: int, lengths: Seq<usize>, k: int) -> Cursor {
    if piece_length == 0 {
        Cursor { piece: k, begin: 0 }
    } else {
        Cursor {
            piece: total_length(lengths, k) / piece_length,
            begin: total_length(lengths, k) % piece_length,
        }
    }
}

/// The cuts of file `k`.
pub open spec fn cuts_of_file(piece_length: int, lengths: Seq<usize>, k: int) -> Seq<Cut> {
    file_cuts(piece_length, file_start(piece_length, lengths, k), k, 0, lengths[k] as int)
}

/// The cuts of the first `k` files.
pub open spec fn cuts_upto(piece_length: int, lengths: Seq<usize>, k: int) -> Seq<Cut>
    decreases k,
{
    if k <= 0 {
        seq![]
    } else {
        cuts_upto(piece_length, lengths, k - 1) + cuts_of_file(piece_length, lengths, k - 1)
    }
}

/// Two cuts start at the same place.
pub open spec fn same_place(a: Cut, b: Cut) -> bool {
    a.piece == b.piece && a.begin == b.begin
}

/// The blocks that cuts give: a cut takes the place of the one before it where both are at
/// the same place.
pub open spec fn blocks_of(cuts: Seq<Cut>) -> Seq<Cut>
    decreases cuts.len(),
{
    if cuts.len() == 0 {
        seq![]
    } else {
        let blocks = blocks_of(cuts.drop_last());
        if blocks.len() > 0 && same_place(blocks.last(), cuts.last()) {
            blocks.drop_last().push(cuts.last())
        } else {
            blocks.push(cuts.last())
        }
    }
}

/// The blocks of a torrent.
pub open spec fn torrent_blocks(piece_length: int, lengths: Seq<usize>) -> Seq<Cut> {
    blocks_of(cuts_upto(piece_length, lengths, lengths.len() as int))
}

/// A torrent that can be cut: with files, and with pieces of some length unless all the
/// files are empty.
pub open spec fn can_be_cut(piece_length: int, lengths: Seq<usize>) -> bool {
    &&& lengths.len() > 0
    &&& piece_length >= 0
    &&& piece_length == 0 ==> forall|k: int| 0 <= k < lengths.len() ==> #[trigger] lengths[k] == 0
}

/// The number of pieces of a torrent. An empty file at the end has a piece of its own where
/// the others fill theirs.
pub open spec fn piece_count(piece_length: int, lengths: Seq<usize>) -> int {
    let total = total_length(lengths, lengths.len() as int);
    if piece_length == 0 {
        lengths.len() as int
    } else if lengths.last() == 0 {
        total / piece_length + 1
    } else {
        (total + piece_length - 1) / piece_length
    }
}

/// The length of piece `i`: all but the last are full.
pub open spec fn piece_length_at(piece_length: int, lengths: Seq<usize>, i: int) -> int {
    let count = piece_count(piece_length, lengths);
    if i < count - 1 {
        piece_length
    } else {
        total_length(lengths, lengths.len() as int) - (count - 1) * piece_length
    }
}

/// A block of a torrent.
#[derive(Debug, Clone, Copy)]
pub struct BlockSpan {
    pub file_index: usize,
    pub piece_index: usize,
    pub begin: usize,
    /// Where it starts in its file.
    pub offset: usize,
    pub length: usize,
}

impl View for BlockSpan {
    type V = Cut;

    open spec fn view(&self) -> Cut {
        Cut {
            file: self.file_index as int,
            piece: self.piece_index as int,
            begin: self.begin as int,
            offset: self.offset as int,
            length: self.length as int,
        }
    }
}

pub open spec fn span_views(spans: Seq<BlockSpan>) -> Seq<Cut> {
    Seq::new(spans.len(), |i: int| spans[i]@)
}

/// The pieces and blocks of a torrent.
#[derive(Debug)]
pub struct Layout {
    /// The blocks of the torrent.
    pub blocks: Vec<BlockSpan>,
    /// The blocks of each file, whether or not the next file took the place of one of them.
    pub file_blocks: Vec<Vec<BlockSpan>>,
    pub piece_lengths: Vec<usize>,
}

/// More files are not shorter together.
pub proof fn lemma_total_grows(lengths: Seq<usize>, j: int, k: int)
    requires
        0 <= j <= k,
        k <= lengths.len(),
    ensures
        0 <= total_length(lengths, j) <= total_length(lengths, k),
    decreases k,
{
    if j < k {
        lemma_total_grows(lengths, j, k - 1);
    } else if k > 0 {
        lemma_total_grows(lengths, j - 1, k - 1);
    }
}

/// A cursor at this distance from the start of the torrent.
pub open spec fn at_distance(piece_length: int, at: Cursor, distance: int) -> bool {
    &&& 0 <= at.piece
    &&& 0 <= at.begin < piece_length
    &&& at.piece * piece_length + at.begin == distance
}

proof fn lemma_cursor_is_unique(piece_length: int, at: Cursor, distance: int)
    requires
        piece_length > 0,
        at_distance(piece_length, at, distance),
    ensures
        at.piece == distance / piece_length,
        at.begin == distance % piece_length,
{
    lemma_fundamental_div_mod_converse(distance, piece_length, at.piece, at.begin);
}

proof fn lemma_start_at_distance(piece_length: int, lengths: Seq<usize>, k: int)
    requires
        piece_length > 0,
        0 <= k <= lengths.len(),
    ensures
        at_distance(
            piece_length,
            file_start(piece_length, lengths, k),
            total_length(lengths, k),
        ),
{
    lemma_total_grows(lengths, 0, k);
    let total = total_length(lengths, k);
    lemma_fundamental_div_mod(total, piece_length);
    lemma_mod_bound(total, piece_length);
    lemma_div_pos_is_pos(total, piece_length);
    lemma_mul_is_commutative(piece_length, total / piece_length);
}

proof fn lemma_next_at_distance(piece_length: int, at: Cursor, distance: int, n: int)
    requires
        piece_length > 0,
        at_distance(piece_length, at, distance),
        0 <= n <= piece_length - at.begin,
    ensures
        at_distance(piece_length, next_cursor(piece_length, at, n), distance + n),
{
    lemma_mul_is_distributive_add_other_way(piece_length, at.piece, 1);
}

/// A full piece that is not the last leaves another one to come.
proof fn lemma_more_pieces(piece_length: int, lengths: Seq<usize>, piece: int)
    requires
        piece_length > 0,
        lengths.len() > 0,
        0 <= piece,
        (piece + 1) * piece_length <= total_length(lengths, lengths.len() as int),
        lengths.last() == 0 || (piece + 1) * piece_length < total_length(
            lengths,
            lengths.len() as int,
        ),
    ensures
        piece + 1 < piece_count(piece_length, lengths),
{
    let total = total_length(lengths, lengths.len() as int);
    if lengths.last() == 0 {
        lemma_div_is_ordered((piece + 1) * piece_length, total, piece_length);
        lemma_div_multiples_vanish(piece + 1, piece_length);
        lemma_mul_is_commutative(piece + 1, piece_length);
    } else {
        lemma_mul_is_distributive_add_other_way(piece_length, piece + 1, 1);
        assert((piece + 2) * piece_length == (piece + 1) * piece_length + piece_length);
        lemma_div_is_ordered(
            (piece + 2) * piece_length,
            total + piece_length - 1,
            piece_length,
        );
        lemma_div_multiples_vanish(piece + 2, piece_length);
        lemma_mul_is_commutative(piece + 2, piece_length);
    }
}

/// Where the last piece ends with the torrent, no other follows.
proof fn lemma_last_piece(piece_length: int, lengths: Seq<usize>, piece: int, filled: int)
    requires
        piece_length > 0,
        lengths.len() > 0,
        0 <= piece,
        piece * piece_length + filled == total_length(lengths, lengths.len() as int),
        lengths.last() == 0 ==> 0 <= filled < piece_length,
        lengths.last() != 0 ==> 0 < filled <= piece_length,
    ensures
        piece_count(piece_length, lengths) == piece + 1,
{
    let total = total_length(lengths, lengths.len() as int);
    if lengths.last() == 0 {
        lemma_fundamental_div_mod_converse(total, piece_length, piece, filled);
    } else {
        lemma_mul_is_distributive_add_other_way(piece_length, piece, 1);
        lemma_fundamental_div_mod_converse(
            total + piece_length - 1,
            piece_length,
            piece + 1,
            filled - 1,
        );
    }
}

/// Adds a block, in place of the last one where both are at the same place.
fn add_block(blocks: &mut Vec<BlockSpan>, span: BlockSpan, Ghost(cuts): Ghost<Seq<Cut>>)
    requires
        span_views(old(blocks)@) == blocks_of(cuts),
    ensures
        span_views(final(blocks)@) == blocks_of(cuts.push(span@)),
{
    let ghost before = span_views(blocks@);
    assert(cuts.push(span@).drop_last() =~= cuts);
    let count: usize = blocks.len();
    if count > 0 && blocks[count - 1].piece_index == span.piece_index && blocks[count - 1].begin
        == span.begin {
        blocks.set(count - 1, span);
        assert(span_views(blocks@) =~= before.drop_last().push(span@));
    } else {
        blocks.push(span);
        assert(span_views(blocks@) =~= before.push(span@));
    }
}

/// Cuts a torrent of files of these lengths into pieces and blocks.
#[verifier::rlimit(50)]
pub fn lay_out(piece_length: usize, lengths: &Vec<usize>) -> (layout: Layout)
    requires
        can_be_cut(piece_length as int, lengths@),
        piece_count(piece_length as int, lengths@) <= usize::MAX,
    ensures
        span_views(layout.blocks@) == torrent_blocks(piece_length as int, lengths@),
        layout.file_blocks@.len() == lengths@.len(),
        forall|k: int|
            0 <= k < lengths@.len() ==> span_views((#[trigger] layout.file_blocks@[k])@)
                == cuts_of_file(piece_length as int, lengths@, k),
        layout.piece_lengths@.len() == piece_count(piece_length as int, lengths@),
        forall|i: int|
            0 <= i < layout.piece_lengths@.len() ==> #[trigger] layout.piece_lengths@[i]
                == piece_length_at(piece_length as int, lengths@, i),
{
    let ghost p = piece_length as int;
    let ghost total = total_length(lengths@, lengths@.len() as int);
    let mut blocks: Vec<BlockSpan> = Vec::new();
    let mut file_blocks: Vec<Vec<BlockSpan>> = Vec::new();
    let mut piece_lengths: Vec<usize> = Vec::new();
    let mut piece_index: usize = 0;
    let mut begin: usize = 0;
    let mut file_index: usize = 0;
    let file_count: usize = lengths.len();
    proof {
        assert(span_views(blocks@) =~= blocks_of(cuts_upto(p, lengths@, 0)));
        lemma_total_grows(lengths@, 0, lengths@.len() as int);
        if p > 0 {
            lemma_start_at_distance(p, lengths@, 0);
            lemma_cursor_is_unique(p, Cursor { piece: 0, begin: 0 }, 0);
            lemma_div_pos_is_pos(total, p);
            if lengths@.last() != 0 {
                lemma_something_is_left(lengths@, 0);
                lemma_div_non_zero(total + p - 1, p);
            }
        }
    }
    while file_index < file_count
        invariant
            p == piece_length,
            total == total_length(lengths@, lengths@.len() as int),
            file_count == lengths@.len(),
            file_index <= file_count,
            can_be_cut(p, lengths@),
            piece_count(p, lengths@) <= usize::MAX,
            span_views(blocks@) == blocks_of(cuts_upto(p, lengths@, file_index as int)),
            file_blocks@.len() == file_index,
            forall|k: int|
                0 <= k < file_index ==> span_views((#[trigger] file_blocks@[k])@)
                    == cuts_of_file(p, lengths@, k),
            file_index < file_count ==> {
                &&& (Cursor { piece: piece_index as int, begin: begin as int }) == file_start(
                    p,
                    lengths@,
                    file_index as int,
                )
                &&& piece_lengths@.len() == piece_index
                &&& piece_index < piece_count(p, lengths@)
                &&& forall|i: int|
                    0 <= i < piece_lengths@.len() ==> #[trigger] piece_lengths@[i] == p
            },
            file_index == file_count ==> {
                &&& piece_lengths@.len() == piece_count(p, lengths@)
                &&& forall|i: int|
                    0 <= i < piece_lengths@.len() ==> #[trigger] piece_lengths@[i]
                        == piece_length_at(p, lengths@, i)
            },
        decreases file_count - file_index,
    {
        let length: usize = lengths[file_index];
        let last_file = file_index == file_count - 1;
        let ghost k = file_index as int;
        let ghost start = total_length(lengths@, k);
        let ghost earlier = cuts_upto(p, lengths@, k);
        let ghost whole = cuts_of_file(p, lengths@, k);
        let mut spans: Vec<BlockSpan> = Vec::new();
        let mut offset: usize = 0;
        let mut done = false;
        proof {
            assert(span_views(spans@) =~= seq![]);
            assert(seq![] + whole =~= whole);
            assert(earlier + seq![] =~= earlier);
            lemma_total_grows(lengths@, k + 1, file_count as int);
            lemma_total_grows(lengths@, k, k + 1);
            if p > 0 {
                lemma_start_at_distance(p, lengths@, k);
            }
        }
        while !done
            invariant
                p == piece_length,
                k == file_index,
                total == total_length(lengths@, lengths@.len() as int),
                start == total_length(lengths@, k),
                start + length == total_length(lengths@, k + 1),
                start + length <= total,
                file_count == lengths@.len(),
                file_index < file_count,
                length == lengths@[k],
                last_file == (file_index == file_count - 1),
                last_file ==> start + length == total,
                can_be_cut(p, lengths@),
                piece_count(p, lengths@) <= usize::MAX,
                earlier == cuts_upto(p, lengths@, k),
                whole == cuts_of_file(p, lengths@, k),
                offset <= length,
                span_views(blocks@) == blocks_of(earlier + span_views(spans@)),
                !done ==> {
                    &&& span_views(spans@) + file_cuts(
                        p,
                        Cursor { piece: piece_index as int, begin: begin as int },
                        k,
                        offset as int,
                        length as int,
                    ) == whole
                    &&& piece_lengths@.len() == piece_index
                    &&& piece_index < piece_count(p, lengths@)
                    &&& forall|i: int|
                        0 <= i < piece_lengths@.len() ==> #[trigger] piece_lengths@[i] == p
                    &&& p == 0 ==> begin == 0 && piece_index == k
                    &&& p > 0 ==> at_distance(
                        p,
                        Cursor { piece: piece_index as int, begin: begin as int },
                        start + offset,
                    )
                    &&& offset == length ==> length == 0
                },
                done ==> {
                    &&& span_views(spans@) == whole
                    &&& offset == length
                    &&& !last_file ==> {
                        &&& piece_lengths@.len() == piece_index
                        &&& piece_index < piece_count(p, lengths@)
                        &&& forall|i: int|
                            0 <= i < piece_lengths@.len() ==> #[trigger] piece_lengths@[i] == p
                        &&& p == 0 ==> begin == 0 && piece_index == k + 1
                        &&& p > 0 ==> at_distance(
                            p,
                            Cursor { piece: piece_index as int, begin: begin as int },
                            start + length,
                        )
                    }
                    &&& last_file ==> {
                        &&& piece_lengths@.len() == piece_count(p, lengths@)
                        &&& forall|i: int|
                            0 <= i < piece_lengths@.len() ==> #[trigger] piece_lengths@[i]
                                == piece_length_at(p, lengths@, i)
                    }
                },
            decreases length - offset, if done { 0int } else { 1int },
        {
            let ghost at = Cursor { piece: piece_index as int, begin: begin as int };
            let ghost rest = file_cuts(p, at, k, offset as int, length as int);
            let ghost spans_before = span_views(spans@);
            // Find the length that can be added.
            let mut block_length: usize = MAX_BLOCK_LENGTH;
            if piece_length - begin < block_length {
                block_length = piece_length - begin;
            }
            if length - offset < block_length {
                block_length = length - offset;
            }
            let span = BlockSpan { file_index, piece_index, begin, offset, length: block_length };
            assert(block_length == cut_length(p, at.begin, length - offset));
            add_block(&mut blocks, span, Ghost(earlier + spans_before));
            spans.push(span);
            proof {
                assert(rest[0] == span@);
                assert((earlier + spans_before).push(span@) =~= earlier + spans_before.push(span@));
                assert(span_views(spans@) =~= spans_before.push(span@));
                if p > 0 {
                    lemma_next_at_distance(p, at, start + offset, block_length as int);
                }
            }
            let ghost next = next_cursor(p, at, block_length as int);
            begin = begin + block_length;
            offset = offset + block_length;
            if offset == length {
                done = true;
                proof {
                    assert(rest =~= seq![span@]);
                    assert(span_views(spans@) =~= whole);
                }
            } else {
                proof {
                    assert(rest == seq![span@] + file_cuts(
                        p,
                        next,
                        k,
                        offset as int,
                        length as int,
                    ));
                    assert(span_views(spans@) + file_cuts(
                        p,
                        next,
                        k,
                        offset as int,
                        length as int,
                    ) =~= whole);
                }
            }
            // A full piece, or what is left for the last one.
            if begin == piece_length || (done && last_file) {
                proof {
                    if p > 0 {
                        lemma_mul_is_distributive_add_other_way(p, piece_index as int, 1);
                        if done && last_file {
                            lemma_last_piece(p, lengths@, piece_index as int, begin as int);
                        } else {
                            if done && lengths@.last() != 0 {
                                lemma_something_is_left(lengths@, k + 1);
                            }
                            lemma_more_pieces(p, lengths@, piece_index as int);
                        }
                    } else if done && last_file {
                        lemma_all_empty(lengths@, file_count as int);
                    }
                }
                piece_lengths.push(begin);
                begin = 0;
                piece_index = piece_index + 1;
            }
        }
        let ghost blocks_before = file_blocks@;
        file_blocks.push(spans);
        proof {
            assert(earlier + whole == cuts_upto(p, lengths@, k + 1));
            if !last_file && p > 0 {
                lemma_cursor_is_unique(
                    p,
                    Cursor { piece: piece_index as int, begin: begin as int },
                    start + length,
                );
            }
        }
        file_index = file_index + 1;
    }
    Layout { blocks, file_blocks, piece_lengths }
}

proof fn lemma_something_is_left(lengths: Seq<usize>, k: int)
    requires
        0 <= k < lengths.len(),
        lengths.last() != 0,
    ensures
        total_length(lengths, k) < total_length(lengths, lengths.len() as int),
{
    lemma_total_grows(lengths, k, lengths.len() - 1);
}

proof fn lemma_all_empty(lengths: Seq<usize>, k: int)
    requires
        0 <= k <= lengths.len(),
        forall|i: int| 0 <= i < lengths.len() ==> #[trigger] lengths[i] == 0,
    ensures
        total_length(lengths, k) == 0,
    decreases k,
{
    if k > 0 {
        lemma_all_empty(lengths, k - 1);
    }
}

// ---------------------------------------------------------------------------------------
// How cuts and blocks lie in the torrent

/// The distance of a cut from the start of the torrent.
pub open spec fn position(piece_length: int, cut: Cut) -> int {
    cut.piece * piece_length + cut.begin
}

/// A cut within its piece and its file, no longer than a block may be, at the same distance
/// from the start of the torrent by its piece as by its file.
pub open spec fn in_place(piece_length: int, lengths: Seq<usize>, cut: Cut) -> bool {
    &&& 0 <= cut.file < lengths.len()
    &&& 0 <= cut.piece
    &&& 0 <= cut.begin < piece_length
    &&& 0 <= cut.length <= MAX_BLOCK_LENGTH
    &&& cut.begin + cut.length <= piece_length
    &&& 0 <= cut.offset
    &&& cut.offset + cut.length <= lengths[cut.file]
    &&& position(piece_length, cut) == total_length(lengths, cut.file) + cut.offset
}

pub open spec fn all_in_place(piece_length: int, lengths: Seq<usize>, cuts: Seq<Cut>) -> bool {
    forall|i: int| 0 <= i < cuts.len() ==> in_place(piece_length, lengths, #[trigger] cuts[i])
}

/// One cut ends where the other starts.
pub open spec fn meets(piece_length: int, a: Cut, b: Cut) -> bool {
    position(piece_length, a) + a.length == position(piece_length, b)
}

/// Cuts that cover the torrent from `start` to `end` without gaps or overlaps.
pub open spec fn covers(piece_length: int, cuts: Seq<Cut>, start: int, end: int) -> bool {
    &&& cuts.len() == 0 ==> start == end
    &&& cuts.len() > 0 ==> position(piece_length, cuts[0]) == start
    &&& cuts.len() > 0 ==> position(piece_length, cuts.last()) + cuts.last().length == end
    &&& forall|i: int, j: int|
        0 <= i && j == i + 1 && j < cuts.len() ==> meets(
            piece_length,
            #[trigger] cuts[i],
            #[trigger] cuts[j],
        )
}

/// A cut in an earlier piece, or earlier in the same piece.
pub open spec fn is_before(a: Cut, b: Cut) -> bool {
    a.piece < b.piece || (a.piece == b.piece && a.begin < b.begin)
}

pub open spec fn in_order(cuts: Seq<Cut>) -> bool {
    forall|i: int, j: int|
        0 <= i < j < cuts.len() ==> is_before(#[trigger] cuts[i], #[trigger] cuts[j])
}

proof fn lemma_cut_count(piece_length: int, at: Cursor, file: int, offset: int, length: int)
    requires
        0 <= offset < length,
    ensures
        file_cuts(piece_length, at, file, offset, length).len() <= length - offset,
    decreases length - offset,
{
    let n = cut_length(piece_length, at.begin, length - offset);
    if !(n <= 0 || offset + n >= length) {
        lemma_cut_count(
            piece_length,
            next_cursor(piece_length, at, n),
            file,
            offset + n,
            length,
        );
    }
}

/// A file has no more cuts than bytes, but for the one cut of an empty file.
pub proof fn files_have_no_more_cuts_than_bytes(
    piece_length: int,
    lengths: Seq<usize>,
    k: int,
)
    requires
        0 <= k < lengths.len(),
    ensures
        cuts_of_file(piece_length, lengths, k).len() <= lengths[k] || cuts_of_file(
            piece_length,
            lengths,
            k,
        ).len() == 1,
{
    if lengths[k] > 0 {
        let at = file_start(piece_length, lengths, k);
        lemma_cut_count(piece_length, at, k, 0, lengths[k] as int);
    }
}

proof fn lemma_covers_concat(
    piece_length: int,
    a: Seq<Cut>,
    b: Seq<Cut>,
    start: int,
    mid: int,
    end: int,
)
    requires
        covers(piece_length, a, start, mid),
        covers(piece_length, b, mid, end),
    ensures
        covers(piece_length, a + b, start, end),
{
    let all = a + b;
    if b.len() == 0 {
        assert(all =~= a);
    } else if a.len() == 0 {
        assert(all =~= b);
    } else {
        assert(all.last() == b.last());
        assert forall|i: int, j: int| 0 <= i && j == i + 1 && j < all.len() implies meets(
            piece_length,
            #[trigger] all[i],
            #[trigger] all[j],
        ) by {
            if j < a.len() {
                assert(meets(piece_length, a[i], a[j]));
            } else if i >= a.len() {
                assert(meets(piece_length, b[i - a.len()], b[j - a.len()]));
            }
        }
    }
}

proof fn lemma_file_cuts(piece_length: int, lengths: Seq<usize>, at: Cursor, k: int, offset: int)
    requires
        piece_length > 0,
        0 <= k < lengths.len(),
        0 <= offset <= lengths[k],
        at_distance(piece_length, at, total_length(lengths, k) + offset),
    ensures
        file_cuts(piece_length, at, k, offset, lengths[k] as int).len() > 0,
        all_in_place(
            piece_length,
            lengths,
            file_cuts(piece_length, at, k, offset, lengths[k] as int),
        ),
        covers(
            piece_length,
            file_cuts(piece_length, at, k, offset, lengths[k] as int),
            total_length(lengths, k) + offset,
            total_length(lengths, k + 1),
        ),
        forall|i: int|
            0 <= i < file_cuts(piece_length, at, k, offset, lengths[k] as int).len() ==> (
            #[trigger] file_cuts(piece_length, at, k, offset, lengths[k] as int)[i]).file == k,
    decreases lengths[k] - offset,
{
    let length = lengths[k] as int;
    let n = cut_length(piece_length, at.begin, length - offset);
    let cut = Cut { file: k, piece: at.piece, begin: at.begin, offset, length: n };
    let cuts = file_cuts(piece_length, at, k, offset, length);
    assert(covers(
        piece_length,
        seq![cut],
        total_length(lengths, k) + offset,
        total_length(lengths, k) + offset + n,
    ));
    if !(n <= 0 || offset + n >= length) {
        lemma_next_at_distance(piece_length, at, total_length(lengths, k) + offset, n);
        let next = next_cursor(piece_length, at, n);
        lemma_file_cuts(piece_length, lengths, next, k, offset + n);
        let rest = file_cuts(piece_length, next, k, offset + n, length);
        lemma_covers_concat(
            piece_length,
            seq![cut],
            rest,
            total_length(lengths, k) + offset,
            total_length(lengths, k) + offset + n,
            total_length(lengths, k + 1),
        );
        assert(cuts =~= seq![cut] + rest);
        assert forall|i: int| 0 <= i < cuts.len() implies in_place(
            piece_length,
            lengths,
            #[trigger] cuts[i],
        ) && cuts[i].file == k by {
            if i > 0 {
                assert(cuts[i] == rest[i - 1]);
            }
        }
    }
}

proof fn lemma_cuts_upto(piece_length: int, lengths: Seq<usize>, k: int)
    requires
        piece_length > 0,
        0 <= k <= lengths.len(),
    ensures
        k > 0 ==> cuts_upto(piece_length, lengths, k).len() > 0,
        all_in_place(piece_length, lengths, cuts_upto(piece_length, lengths, k)),
        covers(piece_length, cuts_upto(piece_length, lengths, k), 0, total_length(lengths, k)),
    decreases k,
{
    if k > 0 {
        lemma_cuts_upto(piece_length, lengths, k - 1);
        lemma_start_at_distance(piece_length, lengths, k - 1);
        lemma_file_cuts(
            piece_length,
            lengths,
            file_start(piece_length, lengths, k - 1),
            k - 1,
            0,
        );
        let before = cuts_upto(piece_length, lengths, k - 1);
        let own = cuts_of_file(piece_length, lengths, k - 1);
        lemma_covers_concat(
            piece_length,
            before,
            own,
            0,
            total_length(lengths, k - 1),
            total_length(lengths, k),
        );
        let all = cuts_upto(piece_length, lengths, k);
        assert forall|i: int| 0 <= i < all.len() implies in_place(
            piece_length,
            lengths,
            #[trigger] all[i],
        ) by {
            if i >= before.len() {
                assert(all[i] == own[i - before.len()]);
            } else {
                assert(all[i] == before[i]);
            }
        }
    }
}

/// Cuts at the same distance are at the same place, and a greater distance is a later place.
proof fn lemma_places(piece_length: int, lengths: Seq<usize>, a: Cut, b: Cut)
    requires
        piece_length > 0,
        in_place(piece_length, lengths, a),
        in_place(piece_length, lengths, b),
    ensures
        position(piece_length, a) == position(piece_length, b) <==> same_place(a, b),
        position(piece_length, a) < position(piece_length, b) <==> is_before(a, b),
{
    if a.piece < b.piece {
        lemma_mul_inequality(a.piece + 1, b.piece, piece_length);
        lemma_mul_is_distributive_add_other_way(piece_length, a.piece, 1);
    } else if b.piece < a.piece {
        lemma_mul_inequality(b.piece + 1, a.piece, piece_length);
        lemma_mul_is_distributive_add_other_way(piece_length, b.piece, 1);
    }
}

proof fn lemma_blocks_of(
    piece_length: int,
    lengths: Seq<usize>,
    cuts: Seq<Cut>,
    start: int,
    end: int,
)
    requires
        piece_length > 0,
        all_in_place(piece_length, lengths, cuts),
        covers(piece_length, cuts, start, end),
    ensures
        cuts.len() > 0 ==> blocks_of(cuts).len() > 0 && blocks_of(cuts).last() == cuts.last(),
        all_in_place(piece_length, lengths, blocks_of(cuts)),
        covers(piece_length, blocks_of(cuts), start, end),
        forall|i: int|
            0 <= i < blocks_of(cuts).len() - 1 ==> 0 < (#[trigger] blocks_of(cuts)[i]).length,
    decreases cuts.len(),
{
    if cuts.len() > 0 {
        let fewer = cuts.drop_last();
        let cut = cuts.last();
        if fewer.len() > 0 {
            assert(meets(piece_length, cuts[cuts.len() - 2], cuts[cuts.len() - 1]));
        }
        let mid = position(piece_length, cut);
        assert(covers(piece_length, fewer, start, mid)) by {
            assert forall|i: int, j: int| 0 <= i && j == i + 1 && j < fewer.len() implies meets(
                piece_length,
                #[trigger] fewer[i],
                #[trigger] fewer[j],
            ) by {
                assert(meets(piece_length, cuts[i], cuts[j]));
            }
        }
        assert forall|i: int| 0 <= i < fewer.len() implies in_place(
            piece_length,
            lengths,
            #[trigger] fewer[i],
        ) by {
            assert(fewer[i] == cuts[i]);
        }
        lemma_blocks_of(piece_length, lengths, fewer, start, mid);
        let blocks = blocks_of(fewer);
        if blocks.len() > 0 {
            lemma_places(piece_length, lengths, blocks.last(), cut);
        }
        if blocks.len() > 0 && same_place(blocks.last(), cut) {
            let kept = blocks.drop_last();
            assert(covers(piece_length, kept, start, mid)) by {
                if kept.len() > 0 {
                    assert(meets(
                        piece_length,
                        blocks[blocks.len() - 2],
                        blocks[blocks.len() - 1],
                    ));
                }
                assert forall|i: int, j: int| 0 <= i && j == i + 1 && j < kept.len() implies meets(
                    piece_length,
                    #[trigger] kept[i],
                    #[trigger] kept[j],
                ) by {
                    assert(meets(piece_length, blocks[i], blocks[j]));
                }
            }
            lemma_covers_concat(piece_length, kept, seq![cut], start, mid, end);
            assert(blocks_of(cuts) =~= kept + seq![cut]);
        } else {
            lemma_covers_concat(piece_length, blocks, seq![cut], start, mid, end);
            assert(blocks_of(cuts) =~= blocks + seq![cut]);
        }
    }
}

/// The blocks of a torrent cover it from its first byte to its last, without gaps or
/// overlaps, each within one piece and one file.
pub proof fn blocks_cover_the_torrent(piece_length: int, lengths: Seq<usize>)
    requires
        can_be_cut(piece_length, lengths),
        piece_length > 0,
    ensures
        torrent_blocks(piece_length, lengths).len() > 0,
        all_in_place(piece_length, lengths, torrent_blocks(piece_length, lengths)),
        covers(
            piece_length,
            torrent_blocks(piece_length, lengths),
            0,
            total_length(lengths, lengths.len() as int),
        ),
{
    let n = lengths.len() as int;
    lemma_cuts_upto(piece_length, lengths, n);
    lemma_blocks_of(
        piece_length,
        lengths,
        cuts_upto(piece_length, lengths, n),
        0,
        total_length(lengths, n),
    );
}

/// The cuts of a file cover it from its first byte to its last, without gaps or overlaps.
pub proof fn file_blocks_cover_the_file(piece_length: int, lengths: Seq<usize>, k: int)
    requires
        can_be_cut(piece_length, lengths),
        piece_length > 0,
        0 <= k < lengths.len(),
    ensures
        cuts_of_file(piece_length, lengths, k).len() > 0,
        all_in_place(piece_length, lengths, cuts_of_file(piece_length, lengths, k)),
        forall|i: int|
            0 <= i < cuts_of_file(piece_length, lengths, k).len() ==> (#[trigger] cuts_of_file(
                piece_length,
                lengths,
                k,
            )[i]).file == k,
        covers(
            piece_length,
            cuts_of_file(piece_length, lengths, k),
            total_length(lengths, k),
            total_length(lengths, k + 1),
        ),
{
    lemma_start_at_distance(piece_length, lengths, k);
    lemma_file_cuts(piece_length, lengths, file_start(piece_length, lengths, k), k, 0);
}

proof fn lemma_positions_grow(
    piece_length: int,
    cuts: Seq<Cut>,
    start: int,
    end: int,
    i: int,
    j: int,
)
    requires
        covers(piece_length, cuts, start, end),
        forall|i: int| 0 <= i < cuts.len() - 1 ==> 0 < (#[trigger] cuts[i]).length,
        0 <= i < j < cuts.len(),
    ensures
        position(piece_length, cuts[i]) < position(piece_length, cuts[j]),
    decreases j - i,
{
    assert(meets(piece_length, cuts[j - 1], cuts[j]));
    if i < j - 1 {
        lemma_positions_grow(piece_length, cuts, start, end, i, j - 1);
    }
}

proof fn lemma_empty_files(lengths: Seq<usize>, k: int)
    requires
        0 <= k <= lengths.len(),
        can_be_cut(0, lengths),
    ensures
        cuts_upto(0, lengths, k).len() == k,
        blocks_of(cuts_upto(0, lengths, k)) == cuts_upto(0, lengths, k),
        forall|i: int|
            0 <= i < k ==> #[trigger] cuts_upto(0, lengths, k)[i] == (Cut {
                file: i,
                piece: i,
                begin: 0,
                offset: 0,
                length: 0,
            }),
    decreases k,
{
    if k > 0 {
        lemma_empty_files(lengths, k - 1);
        let before = cuts_upto(0, lengths, k - 1);
        let all = cuts_upto(0, lengths, k);
        assert(lengths[k - 1] == 0);
        assert(all =~= before + cuts_of_file(0, lengths, k - 1));
        assert(all.drop_last() =~= before);
        assert(blocks_of(all) =~= before.push(all.last()));
    }
}

/// The blocks of a torrent are in the order of their places, so no two share one.
pub proof fn blocks_are_in_order(piece_length: int, lengths: Seq<usize>)
    requires
        can_be_cut(piece_length, lengths),
    ensures
        in_order(torrent_blocks(piece_length, lengths)),
{
    let n = lengths.len() as int;
    let blocks = torrent_blocks(piece_length, lengths);
    if piece_length == 0 {
        lemma_empty_files(lengths, n);
    } else {
        let total = total_length(lengths, n);
        lemma_cuts_upto(piece_length, lengths, n);
        lemma_blocks_of(piece_length, lengths, cuts_upto(piece_length, lengths, n), 0, total);
        assert forall|i: int, j: int| 0 <= i < j < blocks.len() implies is_before(
            #[trigger] blocks[i],
            #[trigger] blocks[j],
        ) by {
            lemma_positions_grow(piece_length, blocks, 0, total, i, j);
            lemma_places(piece_length, lengths, blocks[i], blocks[j]);
        }
    }
}

/// The length of the first `k` pieces together.
pub open spec fn pieces_length(piece_length: int, lengths: Seq<usize>, k: int) -> int
    decreases k,
{
    if k <= 0 {
        0
    } else {
        pieces_length(piece_length, lengths, k - 1) + piece_length_at(
            piece_length,
            lengths,
            k - 1,
        )
    }
}

proof fn lemma_full_pieces(piece_length: int, lengths: Seq<usize>, k: int)
    requires
        0 <= k < piece_count(piece_length, lengths),
    ensures
        pieces_length(piece_length, lengths, k) == k * piece_length,
    decreases k,
{
    if k > 0 {
        lemma_full_pieces(piece_length, lengths, k - 1);
        lemma_mul_is_distributive_add_other_way(piece_length, k - 1, 1);
    } else {
        lemma_mul_basics(piece_length);
    }
}

/// The pieces of a torrent are as long together as its files, and none is longer than a
/// piece is said to be.
pub proof fn pieces_are_as_long_as_the_files(piece_length: int, lengths: Seq<usize>)
    requires
        can_be_cut(piece_length, lengths),
    ensures
        piece_count(piece_length, lengths) > 0,
        pieces_length(piece_length, lengths, piece_count(piece_length, lengths)) == total_length(
            lengths,
            lengths.len() as int,
        ),
        forall|i: int|
            0 <= i < piece_count(piece_length, lengths) ==> 0 <= #[trigger] piece_length_at(
                piece_length,
                lengths,
                i,
            ) <= piece_length,
{
    let n = lengths.len() as int;
    let total = total_length(lengths, n);
    let count = piece_count(piece_length, lengths);
    lemma_total_grows(lengths, 0, n);
    if piece_length == 0 {
        lemma_all_empty(lengths, n);
        lemma_mul_basics(count - 1);
    } else if lengths.last() == 0 {
        lemma_div_pos_is_pos(total, piece_length);
        lemma_fundamental_div_mod(total, piece_length);
        lemma_mod_bound(total, piece_length);
        lemma_mul_is_commutative(piece_length, count - 1);
    } else {
        lemma_something_is_left(lengths, 0);
        let last = total + piece_length - 1;
        lemma_div_non_zero(last, piece_length);
        lemma_fundamental_div_mod(last, piece_length);
        lemma_mod_bound(last, piece_length);
        lemma_mul_is_commutative(piece_length, count);
        lemma_mul_is_distributive_sub_other_way(piece_length, count, 1);
    }
    lemma_full_pieces(piece_length, lengths, count - 1);
}

// ---------------------------------------------------------------------------------------
// How the blocks of the files and those of the torrent go together

proof fn lemma_file_of_cuts(piece_length: int, at: Cursor, file: int, offset: int, length: int)
    ensures
        file_cuts(piece_length, at, file, offset, length).len() > 0,
        forall|i: int|
            0 <= i < file_cuts(piece_length, at, file, offset, length).len() ==> (
            #[trigger] file_cuts(piece_length, at, file, offset, length)[i]).file == file,
    decreases length - offset,
{
    let n = cut_length(piece_length, at.begin, length - offset);
    if !(n <= 0 || offset + n >= length) {
        lemma_file_of_cuts(
            piece_length,
            next_cursor(piece_length, at, n),
            file,
            offset + n,
            length,
        );
        let rest = file_cuts(
            piece_length,
            next_cursor(piece_length, at, n),
            file,
            offset + n,
            length,
        );
        let cuts = file_cuts(piece_length, at, file, offset, length);
        assert forall|i: int| 0 <= i < cuts.len() implies (#[trigger] cuts[i]).file == file by {
            if i > 0 {
                assert(cuts[i] == rest[i - 1]);
            }
        }
    }
}

proof fn lemma_cuts_by_file(piece_length: int, lengths: Seq<usize>, k: int)
    requires
        0 <= k <= lengths.len(),
    ensures
        forall|i: int|
            0 <= i < cuts_upto(piece_length, lengths, k).len() ==> {
                let cut = #[trigger] cuts_upto(piece_length, lengths, k)[i];
                0 <= cut.file < k && cuts_of_file(piece_length, lengths, cut.file).contains(cut)
            },
        forall|f: int, j: int|
            0 <= f < k && 0 <= j < cuts_of_file(piece_length, lengths, f).len()
                ==> cuts_upto(piece_length, lengths, k).contains(
                #[trigger] cuts_of_file(piece_length, lengths, f)[j],
            ),
    decreases k,
{
    if k > 0 {
        lemma_cuts_by_file(piece_length, lengths, k - 1);
        let before = cuts_upto(piece_length, lengths, k - 1);
        let own = cuts_of_file(piece_length, lengths, k - 1);
        let all = cuts_upto(piece_length, lengths, k);
        lemma_file_of_cuts(
            piece_length,
            file_start(piece_length, lengths, k - 1),
            k - 1,
            0,
            lengths[k - 1] as int,
        );
        assert forall|i: int| 0 <= i < all.len() implies {
            let cut = #[trigger] all[i];
            0 <= cut.file < k && cuts_of_file(piece_length, lengths, cut.file).contains(cut)
        } by {
            if i < before.len() {
                assert(all[i] == before[i]);
            } else {
                assert(all[i] == own[i - before.len()]);
            }
        }
        assert forall|f: int, j: int|
            0 <= f < k && 0 <= j < cuts_of_file(
                piece_length,
                lengths,
                f,
            ).len() implies all.contains(#[trigger] cuts_of_file(piece_length, lengths, f)[j]) by {
            let cut = cuts_of_file(piece_length, lengths, f)[j];
            if f < k - 1 {
                assert(before.contains(cut));
                let i = choose|i: int| 0 <= i < before.len() && before[i] == cut;
                assert(all[i] == cut);
            } else {
                assert(all[before.len() + j] == cut);
            }
        }
    }
}

proof fn lemma_blocks_and_cuts(cuts: Seq<Cut>)
    ensures
        forall|j: int|
            0 <= j < blocks_of(cuts).len() ==> cuts.contains(#[trigger] blocks_of(cuts)[j]),
        forall|i: int|
            0 <= i < cuts.len() ==> holds_place(blocks_of(cuts), #[trigger] cuts[i]),
    decreases cuts.len(),
{
    if cuts.len() > 0 {
        let fewer = cuts.drop_last();
        lemma_blocks_and_cuts(fewer);
        let before = blocks_of(fewer);
        let blocks = blocks_of(cuts);
        assert(blocks.last() == cuts.last());
        assert forall|j: int| 0 <= j < blocks.len() implies cuts.contains(
            #[trigger] blocks[j],
        ) by {
            if j == blocks.len() - 1 {
                assert(cuts[cuts.len() - 1] == blocks[j]);
            } else {
                assert(blocks[j] == before[j]);
                let i = choose|i: int| 0 <= i < fewer.len() && fewer[i] == before[j];
                assert(cuts[i] == blocks[j]);
            }
        }
        assert forall|i: int| 0 <= i < cuts.len() implies holds_place(
            blocks,
            #[trigger] cuts[i],
        ) by {
            if i == cuts.len() - 1 {
                assert(same_place(blocks[blocks.len() - 1], cuts[i]));
            } else {
                assert(fewer[i] == cuts[i]);
                let j = choose|j: int|
                    0 <= j < before.len() && same_place(#[trigger] before[j], cuts[i]);
                if j < blocks.len() - 1 {
                    assert(blocks[j] == before[j]);
                } else {
                    assert(same_place(blocks[blocks.len() - 1], cuts[i]));
                }
            }
        }
    }
}

/// There is a block at the place of a cut.
pub open spec fn holds_place(blocks: Seq<Cut>, cut: Cut) -> bool {
    exists|j: int| 0 <= j < blocks.len() && same_place(#[trigger] blocks[j], cut)
}

/// Every block of a file has its place among the blocks of the torrent, and every block of
/// the torrent is one of its file.
pub proof fn files_and_torrent_share_their_blocks(piece_length: int, lengths: Seq<usize>)
    ensures
        forall|f: int, j: int|
            0 <= f < lengths.len() && 0 <= j < cuts_of_file(piece_length, lengths, f).len()
                ==> holds_place(
                torrent_blocks(piece_length, lengths),
                #[trigger] cuts_of_file(piece_length, lengths, f)[j],
            ),
        forall|i: int|
            0 <= i < torrent_blocks(piece_length, lengths).len() ==> {
                let block = #[trigger] torrent_blocks(piece_length, lengths)[i];
                0 <= block.file < lengths.len() && cuts_of_file(
                    piece_length,
                    lengths,
                    block.file,
                ).contains(block)
            },
{
    let n = lengths.len() as int;
    let cuts = cuts_upto(piece_length, lengths, n);
    let blocks = torrent_blocks(piece_length, lengths);
    lemma_cuts_by_file(piece_length, lengths, n);
    lemma_blocks_and_cuts(cuts);
    assert forall|f: int, j: int|
        0 <= f < n && 0 <= j < cuts_of_file(piece_length, lengths, f).len() implies holds_place(
        blocks,
        #[trigger] cuts_of_file(piece_length, lengths, f)[j],
    ) by {
        let cut = cuts_of_file(piece_length, lengths, f)[j];
        assert(cuts.contains(cut));
        let i = choose|i: int| 0 <= i < cuts.len() && cuts[i] == cut;
        assert(holds_place(blocks, cuts[i]));
    }
    assert forall|i: int| 0 <= i < blocks.len() implies {
        let block = #[trigger] blocks[i];
        0 <= block.file < n && cuts_of_file(piece_length, lengths, block.file).contains(block)
    } by {
        assert(cuts.contains(blocks[i]));
        let k = choose|k: int| 0 <= k < cuts.len() && cuts[k] == blocks[i];
        let cut = cuts[k];
        assert(0 <= cut.file < n);
    }
}

/// Every block lies in one of the pieces.
pub proof fn blocks_lie_in_the_pieces(piece_length: int, lengths: Seq<usize>)
    requires
        can_be_cut(piece_length, lengths),
    ensures
        forall|i: int|
            0 <= i < torrent_blocks(piece_length, lengths).len() ==> {
                let block = #[trigger] torrent_blocks(piece_length, lengths)[i];
                &&& 0 <= block.piece < piece_count(piece_length, lengths)
                &&& 0 <= block.begin
                &&& 0 <= block.length
                &&& block.begin + block.length <= piece_length
            },
{
    let n = lengths.len() as int;
    let blocks = torrent_blocks(piece_length, lengths);
    let total = total_length(lengths, n);
    if piece_length == 0 {
        lemma_empty_files(lengths, n);
    } else {
        lemma_cuts_upto(piece_length, lengths, n);
        lemma_blocks_of(piece_length, lengths, cuts_upto(piece_length, lengths, n), 0, total);
        lemma_total_grows(lengths, 0, n);
        assert forall|i: int| 0 <= i < blocks.len() implies {
            let block = #[trigger] blocks[i];
            &&& 0 <= block.piece < piece_count(piece_length, lengths)
            &&& 0 <= block.begin
            &&& 0 <= block.length
            &&& block.begin + block.length <= piece_length
        } by {
            let block = blocks[i];
            let at = position(piece_length, block);
            assert(in_place(piece_length, lengths, block));
            lemma_total_grows(lengths, block.file + 1, n);
            assert(at + block.length <= total);
            lemma_fundamental_div_mod_converse(at, piece_length, block.piece, block.begin);
            if lengths.last() == 0 {
                lemma_div_is_ordered(at, total, piece_length);
            } else {
                lemma_last_block(piece_length, lengths);
                assert(i < blocks.len() - 1 ==> 0 < block.length);
                lemma_div_is_ordered(at + piece_length, total + piece_length - 1, piece_length);
                lemma_div_plus_one(at, piece_length);
            }
        }
    }
}

/// The last block of a torrent whose last file is not empty is not empty either.
proof fn lemma_last_block(piece_length: int, lengths: Seq<usize>)
    requires
        can_be_cut(piece_length, lengths),
        piece_length > 0,
        lengths.last() != 0,
    ensures
        torrent_blocks(piece_length, lengths).len() > 0,
        torrent_blocks(piece_length, lengths).last().length > 0,
{
    let n = lengths.len() as int;
    lemma_cuts_upto(piece_length, lengths, n);
    lemma_blocks_of(
        piece_length,
        lengths,
        cuts_upto(piece_length, lengths, n),
        0,
        total_length(lengths, n),
    );
    lemma_start_at_distance(piece_length, lengths, n - 1);
    lemma_last_cut(
        piece_length,
        file_start(piece_length, lengths, n - 1),
        n - 1,
        0,
        lengths[n - 1] as int,
    );
    let own = cuts_of_file(piece_length, lengths, n - 1);
    assert(cuts_upto(piece_length, lengths, n).last() == own.last());
}

proof fn lemma_last_cut(piece_length: int, at: Cursor, file: int, offset: int, length: int)
    requires
        0 <= at.begin < piece_length,
        offset < length,
    ensures
        file_cuts(piece_length, at, file, offset, length).len() > 0,
        file_cuts(piece_length, at, file, offset, length).last().length > 0,
    decreases length - offset,
{
    let n = cut_length(piece_length, at.begin, length - offset);
    if !(n <= 0 || offset + n >= length) {
        let next = next_cursor(piece_length, at, n);
        lemma_last_cut(piece_length, next, file, offset + n, length);
        let rest = file_cuts(piece_length, next, file, offset + n, length);
        assert(file_cuts(piece_length, at, file, offset, length).last() == rest.last());
    }
}

proof fn lemma_div_plus_one(x: int, d: int)
    requires
        d > 0,
    ensures
        (x + d) / d == x / d + 1,
{
    lemma_fundamental_div_mod(x, d);
    lemma_mod_bound(x, d);
    lemma_mul_is_distributive_add(d, x / d, 1);
    lemma_fundamental_div_mod_converse(x + d, d, x / d + 1, x % d);
}

proof fn lemma_positions_never_fall(
    piece_length: int,
    cuts: Seq<Cut>,
    start: int,
    end: int,
    i: int,
    j: int,
)
    requires
        covers(piece_length, cuts, start, end),
        forall|i: int| 0 <= i < cuts.len() ==> 0 <= (#[trigger] cuts[i]).length,
        0 <= i <= j < cuts.len(),
    ensures
        position(piece_length, cuts[i]) <= position(piece_length, cuts[j]),
    decreases j - i,
{
    if i < j {
        assert(meets(piece_length, cuts[j - 1], cuts[j]));
        lemma_positions_never_fall(piece_length, cuts, start, end, i, j - 1);
    }
}

/// Numbers below `n` that grow, `n` of them, are all of them.
proof fn lemma_growing_numbers(numbers: Seq<int>, n: int, k: int)
    requires
        numbers.len() == n,
        0 <= k < n,
        forall|i: int| 0 <= i < n ==> 0 <= #[trigger] numbers[i] < n,
        forall|i: int, j: int| 0 <= i < j < n ==> #[trigger] numbers[i] < #[trigger] numbers[j],
    ensures
        numbers[k] == k,
{
    lemma_numbers_from_below(numbers, n, k);
    lemma_numbers_from_above(numbers, n, k);
}

proof fn lemma_numbers_from_below(numbers: Seq<int>, n: int, k: int)
    requires
        numbers.len() == n,
        0 <= k < n,
        forall|i: int| 0 <= i < n ==> 0 <= #[trigger] numbers[i] < n,
        forall|i: int, j: int| 0 <= i < j < n ==> #[trigger] numbers[i] < #[trigger] numbers[j],
    ensures
        k <= numbers[k],
    decreases k,
{
    if k > 0 {
        lemma_numbers_from_below(numbers, n, k - 1);
        assert(numbers[k - 1] < numbers[k]);
    }
}

proof fn lemma_numbers_from_above(numbers: Seq<int>, n: int, k: int)
    requires
        numbers.len() == n,
        0 <= k < n,
        forall|i: int| 0 <= i < n ==> 0 <= #[trigger] numbers[i] < n,
        forall|i: int, j: int| 0 <= i < j < n ==> #[trigger] numbers[i] < #[trigger] numbers[j],
    ensures
        numbers[k] <= k,
    decreases n - k,
{
    if k < n - 1 {
        lemma_numbers_from_above(numbers, n, k + 1);
        assert(numbers[k] < numbers[k + 1]);
    }
}

/// Where a cut is in a list.
spec fn place_in(cuts: Seq<Cut>, cut: Cut) -> int {
    choose|j: int| 0 <= j < cuts.len() && cuts[j] == cut
}

/// A later block of a file is later among the blocks of the file.
proof fn lemma_later_blocks(piece_length: int, lengths: Seq<usize>, f: int, a: int, b: int)
    requires
        can_be_cut(piece_length, lengths),
        piece_length > 0,
        0 <= f < lengths.len(),
        0 <= a < b < torrent_blocks(piece_length, lengths).len(),
        torrent_blocks(piece_length, lengths)[a].file == f,
        torrent_blocks(piece_length, lengths)[b].file == f,
    ensures
        place_in(
            cuts_of_file(piece_length, lengths, f),
            torrent_blocks(piece_length, lengths)[a],
        ) < place_in(
            cuts_of_file(piece_length, lengths, f),
            torrent_blocks(piece_length, lengths)[b],
        ),
{
    let blocks = torrent_blocks(piece_length, lengths);
    let own = cuts_of_file(piece_length, lengths, f);
    let (first, second) = (blocks[a], blocks[b]);
    blocks_are_in_order(piece_length, lengths);
    assert(is_before(first, second));
    blocks_cover_the_torrent(piece_length, lengths);
    assert(in_place(piece_length, lengths, first));
    assert(in_place(piece_length, lengths, second));
    lemma_places(piece_length, lengths, first, second);
    files_and_torrent_share_their_blocks(piece_length, lengths);
    assert(own.contains(first));
    assert(own.contains(second));
    let (i, j) = (place_in(own, first), place_in(own, second));
    if j <= i {
        file_blocks_cover_the_file(piece_length, lengths, f);
        lemma_positions_never_fall(
            piece_length,
            own,
            total_length(lengths, f),
            total_length(lengths, f + 1),
            j,
            i,
        );
    }
}

/// As many blocks of a file as it has, in the order of their places, are the blocks of the
/// file from its first byte to its last.
pub proof fn all_blocks_of_a_file_make_it_up(
    piece_length: int,
    lengths: Seq<usize>,
    f: int,
    selected: Seq<int>,
)
    requires
        can_be_cut(piece_length, lengths),
        piece_length > 0,
        0 <= f < lengths.len(),
        selected.len() == cuts_of_file(piece_length, lengths, f).len(),
        forall|k: int|
            0 <= k < selected.len() ==> 0 <= (#[trigger] selected[k]) < torrent_blocks(
                piece_length,
                lengths,
            ).len() && torrent_blocks(piece_length, lengths)[selected[k]].file == f,
        forall|j: int, k: int|
            0 <= j < k < selected.len() ==> #[trigger] selected[j] < #[trigger] selected[k],
    ensures
        forall|k: int|
            0 <= k < selected.len() ==> torrent_blocks(piece_length, lengths)[
            #[trigger] selected[k]] == cuts_of_file(piece_length, lengths, f)[k],
{
    let blocks = torrent_blocks(piece_length, lengths);
    let own = cuts_of_file(piece_length, lengths, f);
    let n = selected.len() as int;
    files_and_torrent_share_their_blocks(piece_length, lengths);
    let places = Seq::new(n as nat, |k: int| place_in(own, blocks[selected[k]]));
    assert forall|k: int| 0 <= k < n implies 0 <= #[trigger] places[k] < n && own[places[k]]
        == blocks[selected[k]] by {
        assert(own.contains(blocks[selected[k]]));
    }
    assert forall|j: int, k: int| 0 <= j < k < n implies #[trigger] places[j]
        < #[trigger] places[k] by {
        assert(selected[j] < selected[k]);
        lemma_later_blocks(piece_length, lengths, f, selected[j], selected[k]);
    }
    assert forall|k: int| 0 <= k < n implies blocks[#[trigger] selected[k]] == own[k] by {
        lemma_growing_numbers(places, n, k);
        assert(own[places[k]] == blocks[selected[k]]);
    }
}

} // verus!
