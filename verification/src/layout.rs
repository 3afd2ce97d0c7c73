//! Where the glyphs of a line of text go on a canvas: left to right, and on
//! to a new row when the canvas is not wide enough.

use vstd::prelude::*;
use crate::ast::Vector2;

verus! {

/// Where the pen stands after a glyph of the given size, if it stood at
/// `current` before. A glyph that ends left of the canvas's right edge moves
/// the pen right by its width. Any other glyph starts a new row: the pen goes
/// to the left edge, then right by the glyph's width and down by its height.
/// `None` if a coordinate leaves the range of `i32` on the way.
pub open spec fn place(current: Vector2<i32>, size: Vector2<i32>, canvas_width: i32) -> Option<
    Vector2<i32>,
> {
    let x = current.x + size.x;
    let y = current.y + size.y;
    if !(i32::MIN <= x <= i32::MAX && i32::MIN <= y <= i32::MAX) {
        None
    } else if x < canvas_width {
        Some(Vector2 { x: x as i32, y: current.y })
    } else {
        Some(Vector2 { x: size.x, y: y as i32 })
    }
}

/// Where the pen stands after each glyph of `sizes` in turn, if it stood at
/// `start` before the first.
pub open spec fn positions(start: Vector2<i32>, sizes: Seq<Vector2<i32>>, canvas_width: i32)
    -> Option<Seq<Vector2<i32>>>
    decreases sizes.len(),
{
    if sizes.len() == 0 {
        Some(Seq::empty())
    } else {
        match place(start, sizes[0], canvas_width) {
            None => None,
            Some(next) => after_positions(
                seq![next],
                positions(next, sizes.drop_first(), canvas_width),
            ),
        }
    }
}

/// `placed` with `head` put in front of it.
pub open spec fn after_positions(head: Seq<Vector2<i32>>, placed: Option<Seq<Vector2<i32>>>)
    -> Option<Seq<Vector2<i32>>> {
    match placed {
        Some(rest) => Some(head + rest),
        None => None,
    }
}

/// Moves the pen over one glyph.
pub fn place_glyph(current: Vector2<i32>, size: Vector2<i32>, canvas_width: i32) -> (next: Option<
    Vector2<i32>,
>)
    ensures
        next == place(current, size, canvas_width),
{
    let x: i64 = current.x as i64 + size.x as i64;
    let y: i64 = current.y as i64 + size.y as i64;
    if x < i32::MIN as i64 || x > i32::MAX as i64 || y < i32::MIN as i64 || y > i32::MAX as i64 {
        None
    } else if x < canvas_width as i64 {
        Some(Vector2 { x: x as i32, y: current.y })
    } else {
        Some(Vector2 { x: size.x, y: y as i32 })
    }
}

/// Where the pen stands after each glyph of a string, given the size of each
/// glyph in order and the width of the canvas. The pen starts in the top left
/// corner.
pub fn get_string_position(sizes: &Vec<Vector2<i32>>, canvas_width: i32) -> (placed: Option<
    Vec<Vector2<i32>>,
>)
    ensures
        match placed {
            Some(pen) => positions(Vector2 { x: 0, y: 0 }, sizes@, canvas_width) == Some(pen@),
            None => positions(Vector2 { x: 0, y: 0 }, sizes@, canvas_width) is None,
        },
{
    let ghost start = Vector2 { x: 0i32, y: 0i32 };
    let mut current: Vector2<i32> = Vector2 { x: 0, y: 0 };
    let mut pen: Vec<Vector2<i32>> = Vec::new();
    let mut i: usize = 0;
    proof {
        assert(sizes@.skip(0) =~= sizes@);
        if let Some(all) = positions(start, sizes@, canvas_width) {
            assert(pen@ + all =~= all);
        }
    }
    while i < sizes.len()
        invariant
            i <= sizes.len(),
            start == (Vector2 { x: 0i32, y: 0i32 }),
            positions(start, sizes@, canvas_width) == after_positions(
                pen@,
                positions(current, sizes@.skip(i as int), canvas_width),
            ),
        decreases sizes.len() - i,
    {
        let ghost before = pen@;
        let ghost left = sizes@.skip(i as int);
        assert(left[0] == sizes@[i as int]);
        assert(left.drop_first() =~= sizes@.skip(i + 1));
        match place_glyph(current, sizes[i], canvas_width) {
            None => {
                return None;
            },
            Some(next) => {
                proof {
                    assert(positions(current, left, canvas_width) == after_positions(
                        seq![next],
                        positions(next, sizes@.skip(i + 1), canvas_width),
                    ));
                    if let Some(rest) = positions(next, sizes@.skip(i + 1), canvas_width) {
                        assert(before + (seq![next] + rest) =~= before.push(next) + rest);
                    }
                }
                pen.push(next);
                current = next;
            },
        }
        i += 1;
    }
    assert(pen@ + Seq::<Vector2<i32>>::empty() =~= pen@);
    Some(pen)
}

} // verus!
