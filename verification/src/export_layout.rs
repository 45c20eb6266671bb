use vstd::prelude::*;

verus! {

// ─── Geometry of the exported bracket picture (pixels) ──────────────────

pub const CARD_W: i32 = 200;
pub const CARD_H: i32 = 60;
pub const HALF_H: i32 = 30;
pub const H_GAP: i32 = 60;
pub const V_GAP: i32 = 30;
pub const HEADER_H: i32 = 40;
pub const PADDING: i32 = 60;
pub const SCORE_BOX_W: i32 = 30;
pub const TITLE_AREA: i32 = 70;
pub const CHAMPION_AREA: i32 = 60;
pub const RR_CARD_W: i32 = 260;
pub const RR_CARD_H: i32 = 70;
pub const RR_PER_ROW: i32 = 3;
pub const RR_SPACING: i32 = 16;

/// The most rounds, or matches in a round, a picture is laid out for.
pub const LAYOUT_LIMIT: usize = 100_000;

/// Integer division rounding toward zero (as `/` on `i32`), for a positive
/// divisor.
pub open spec fn tdiv(a: int, b: int) -> int {
    if a >= 0 {
        a / b
    } else {
        -((-a) / b)
    }
}

fn half(a: i32) -> (r: i32)
    ensures
        r == tdiv(a as int, 2),
{
    a / 2
}

/// Where the sections of an elimination bracket picture go.
#[derive(Debug, Clone, Copy)]
pub struct EliminationLayout {
    pub canvas_width: i32,
    pub canvas_height: i32,
    /// Top of the upper bracket (below the title and champion banner).
    pub origin_y: i32,
    pub upper_height: i32,
    pub lower_origin_y: i32,
    pub content_height: i32,
    pub grand_final_x: i32,
    pub grand_final_y: i32,
    pub third_place_x: i32,
    pub third_place_y: i32,
}

/// Height of the upper bracket section for `fu` first-round matches: a
/// card and a gap (90) per match, the round header (40) and a margin (40).
pub open spec fn upper_section(fu: int) -> int {
    if fu > 0 {
        fu * 90 + 80
    } else {
        170
    }
}

/// Height of the lower bracket section for `fl` first-round matches.
pub open spec fn lower_section(fl: int) -> int {
    if fl > 0 {
        fl * 90 + 80
    } else {
        0
    }
}

/// Top of the third-place match, measured from the upper bracket's origin:
/// below the upper final, which sits halfway down the first round.
pub open spec fn third_place_offset(fu: int) -> int {
    80 + tdiv(fu * 90 - 60, 2) + 50
}

/// Height of the bracket sections together.
pub open spec fn content_height(fu: int, fl: int, lower_rounds: int, third: bool) -> int {
    let base = upper_section(fu) + if lower_rounds > 0 { lower_section(fl) + 50 } else { 0 };
    if third {
        let bottom = third_place_offset(fu) + 140;
        if bottom > base { bottom } else { base }
    } else {
        base
    }
}

/// The layout of an elimination bracket picture: `fu` and `fl` matches in
/// the first upper and lower rounds, the numbers of upper, lower and grand
/// final rounds, whether there is a third-place round and a champion.
pub open spec fn elimination_layout_ok(
    l: EliminationLayout,
    fu: int,
    fl: int,
    upper_rounds: int,
    lower_rounds: int,
    final_rounds: int,
    third: bool,
    champion: bool,
) -> bool {
    let top = if champion { 190int } else { 130int };
    let content = content_height(fu, fl, lower_rounds, third);
    let columns = (if upper_rounds > lower_rounds { upper_rounds } else { lower_rounds });
    let width = 180 + (columns + final_rounds) * 260;
    let height = top + content + 60;
    &&& l.origin_y == top
    &&& l.upper_height == upper_section(fu)
    &&& l.content_height == content
    &&& l.canvas_width == (if width > 900 { width } else { 900 })
    &&& l.canvas_height == (if height > 500 { height } else { 500 })
    &&& l.lower_origin_y == top + upper_section(fu) + 20
    &&& l.grand_final_x == 60 + columns * 260
    &&& l.grand_final_y == top + tdiv(content - 100, 2) - 40
    &&& l.third_place_x == 60 + (if columns > 0 { columns - 1 } else { 0 }) * 260
    &&& l.third_place_y == (if upper_rounds > 0 { top + third_place_offset(fu) } else { top + upper_section(fu) + 1 })
}

/// Lays out an elimination bracket picture.
pub fn elimination_layout(
    first_upper: usize,
    first_lower: usize,
    upper_rounds: usize,
    lower_rounds: usize,
    final_rounds: usize,
    third_place: bool,
    champion: bool,
) -> (l: EliminationLayout)
    requires
        first_upper <= LAYOUT_LIMIT,
        first_lower <= LAYOUT_LIMIT,
        upper_rounds <= LAYOUT_LIMIT,
        lower_rounds <= LAYOUT_LIMIT,
        final_rounds <= LAYOUT_LIMIT,
    ensures
        elimination_layout_ok(l, first_upper as int, first_lower as int, upper_rounds as int, lower_rounds as int,
            final_rounds as int, third_place, champion),
{
    let fu = first_upper as i32;
    let fl = first_lower as i32;
    let upper_height: i32 = if fu > 0 { fu * 90 + 80 } else { 170 };
    let lower_height: i32 = if fl > 0 { fl * 90 + 80 } else { 0 };
    let top: i32 = if champion { 190 } else { 130 };
    let upper_final_y: i32 = 80 + half(fu * 90 - 60);
    let tp_offset: i32 = upper_final_y + 50;
    let mut content: i32 = upper_height;
    if lower_rounds > 0 {
        content = content + lower_height + 50;
    }
    if third_place {
        let bottom = tp_offset + 140;
        if bottom > content {
            content = bottom;
        }
    }
    let wide = if upper_rounds > lower_rounds { upper_rounds } else { lower_rounds };
    let columns = wide as i32;
    let finals = final_rounds as i32;
    let width: i32 = 180 + (columns + finals) * 260;
    let height: i32 = top + content + 60;
    EliminationLayout {
        canvas_width: if width > 900 { width } else { 900 },
        canvas_height: if height > 500 { height } else { 500 },
        origin_y: top,
        upper_height,
        lower_origin_y: top + upper_height + 20,
        content_height: content,
        grand_final_x: 60 + columns * 260,
        grand_final_y: top + half(content - 100) - 40,
        third_place_x: 60 + (if columns > 0 { columns - 1 } else { 0 }) * 260,
        third_place_y: if upper_rounds > 0 { top + tp_offset } else { top + upper_height + 1 },
    }
}

/// The left edge of round column `round_idx` of a bracket section that
/// starts at `start_x`: half a gap in, then a card and a gap (260) per
/// column.
pub open spec fn column_x(start_x: int, round_idx: int) -> int {
    start_x + 30 + round_idx * 260
}

/// The left edge of round column `round_idx`.
pub fn tree_column_x(start_x: i32, round_idx: usize) -> (r: i32)
    requires
        -1_000_000_000 <= start_x <= 1_000_000_000,
        round_idx <= LAYOUT_LIMIT,
    ensures
        r == column_x(start_x as int, round_idx as int),
{
    start_x + 30 + (round_idx as i32) * 260
}

/// The vertical spacing of a round with `count` matches in a section whose
/// first round has `first` matches.
pub open spec fn slot_spacing(first: int, count: int) -> int {
    if count > 0 {
        (first * 90) / count
    } else {
        0
    }
}

/// The top of match `idx` of a round with `count` matches, in a section
/// whose rounds start at `tree_y` and whose first round has `first`
/// matches: the matches of each round are spread over the height of the
/// first round.
pub open spec fn slot_y(tree_y: int, first: int, count: int, idx: int) -> int {
    let vs = slot_spacing(first, count);
    tree_y + 40 + idx * vs + tdiv(vs - 60, 2)
}

proof fn lemma_slot_bound(first: int, count: int, idx: int)
    by (nonlinear_arith)
    requires
        0 <= first <= 100_000,
        0 <= idx < count,
    ensures
        0 <= idx * ((first * 90) / count) <= first * 90,
        0 <= (first * 90) / count <= first * 90,
{
    assert(0 <= (first * 90) / count <= first * 90);
    assert(count * ((first * 90) / count) <= first * 90);
    assert(idx * ((first * 90) / count) <= count * ((first * 90) / count));
}

/// The top of match `idx` of its round.
pub fn tree_slot_y(tree_y: i32, first: usize, count: usize, idx: usize) -> (r: i32)
    requires
        -1_000_000_000 <= tree_y <= 1_000_000_000,
        first <= LAYOUT_LIMIT,
        count <= LAYOUT_LIMIT,
        idx < count,
    ensures
        r == slot_y(tree_y as int, first as int, count as int, idx as int),
{
    let total: i64 = (first as i64) * 90;
    proof {
        lemma_slot_bound(first as int, count as int, idx as int);
    }
    let vs: i64 = total / (count as i64);
    assert(vs == (first * 90) / (count as int));
    let y: i64 = tree_y as i64 + 40 + (idx as i64) * vs + (vs - 60) / 2;
    y as i32
}

// ─── Round-robin picture ────────────────────────────────────────────────

/// Rows of cards for `count` matches, three to a row.
pub open spec fn card_rows(count: int) -> int {
    (count + 2) / 3
}

/// Height the round takes in the round-robin picture.
pub open spec fn rr_round_height(count: int) -> int {
    50 + card_rows(count) * 86 + 20
}

/// Height of the first `k` rounds with the given match counts.
pub open spec fn rr_rounds_height(counts: Seq<usize>, k: int) -> int
    decreases k,
{
    if k <= 0 {
        0
    } else {
        rr_rounds_height(counts, k - 1) + rr_round_height(counts[k - 1] as int)
    }
}

/// Width of the round-robin picture: three cards of 260 with spacing 16,
/// and padding 60 on each side.
pub open spec fn rr_canvas_width() -> int {
    948
}

/// Top of the first round and size of the round-robin picture for rounds
/// with `counts` matches, with a champion banner when `champion`.
pub open spec fn rr_layout_ok(r: (i32, i32, i32), counts: Seq<usize>, champion: bool) -> bool {
    let top = if champion { 190int } else { 130int };
    let height = top + rr_rounds_height(counts, counts.len() as int) + 60;
    &&& r.0 == top
    &&& r.1 == rr_canvas_width()
    &&& r.2 == (if height > 400 { height } else { 400 })
}

proof fn lemma_rr_rounds_height_bound(counts: Seq<usize>, k: int)
    requires
        0 <= k <= counts.len(),
        forall|i: int| 0 <= i < counts.len() ==> #[trigger] counts[i] <= LAYOUT_LIMIT,
    ensures
        0 <= rr_rounds_height(counts, k) <= k * 3_000_000,
    decreases k,
{
    if k > 0 {
        lemma_rr_rounds_height_bound(counts, k - 1);
        assert(counts[k - 1] <= LAYOUT_LIMIT);
    }
}

/// Lays out the round-robin picture: the top of the first round, the width
/// and the height.
pub fn round_robin_layout(counts: &Vec<usize>, champion: bool) -> (r: (i32, i32, i32))
    requires
        counts@.len() <= 500,
        forall|i: int| 0 <= i < counts@.len() ==> #[trigger] counts@[i] <= LAYOUT_LIMIT,
    ensures
        rr_layout_ok(r, counts@, champion),
{
    let top: i32 = if champion { 190 } else { 130 };
    let mut total: i64 = 0;
    let mut k: usize = 0;
    while k < counts.len()
        invariant
            k <= counts@.len(),
            counts@.len() <= 500,
            forall|i: int| 0 <= i < counts@.len() ==> #[trigger] counts@[i] <= LAYOUT_LIMIT,
            total == rr_rounds_height(counts@, k as int),
            0 <= total <= k * 3_000_000,
        decreases counts@.len() - k,
    {
        let c = counts[k] as i64;
        total = total + 50 + ((c + 2) / 3) * 86 + 20;
        proof {
            lemma_rr_rounds_height_bound(counts@, k + 1);
        }
        k = k + 1;
    }
    let height: i64 = top as i64 + total + 60;
    let h: i32 = if height > 400 { height as i32 } else { 400 };
    (top, 948, h)
}

/// The top-left corner of card `i` of a round whose cards start at `y`.
pub open spec fn rr_card_corner(y: int, i: int) -> (int, int) {
    (60 + (i % 3) * 276, y + (i / 3) * 86)
}

/// The top-left corner of card `i` of a round whose cards start at `y`.
pub fn rr_card_position(y: i32, i: usize) -> (r: (i32, i32))
    requires
        0 <= y <= 1_000_000_000,
        i <= LAYOUT_LIMIT,
    ensures
        (r.0 as int, r.1 as int) == rr_card_corner(y as int, i as int),
{
    let c = i % 3;
    let w = i / 3;
    assert(c < 3 && w <= 33_334);
    let col = c as i32;
    let row = w as i32;
    assert(row * 86 <= 2_900_000) by (nonlinear_arith)
        requires
            0 <= row <= 33_334,
    ;
    assert(col * 276 <= 552) by (nonlinear_arith)
        requires
            0 <= col < 3,
    ;
    (60 + col * 276, y + row * 86)
}

/// How far the picture moves down past a round with `count` matches once
/// its header is drawn.
pub fn rr_rows_height(count: usize) -> (r: i32)
    requires
        count <= LAYOUT_LIMIT,
    ensures
        r == card_rows(count as int) * 86 + 20,
{
    let c = count as i32;
    ((c + 2) / 3) * 86 + 20
}

} // verus!
