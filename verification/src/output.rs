//! How a found path is handed to the caller's output buffer: the count that
//! is returned, and whether the points are written.
use vstd::prelude::*;

verus! {

/// The number of path points handed out: all but the start point.
pub open spec fn handed_out_points(point_count: int) -> int {
    if point_count == 0 {
        0
    } else {
        point_count - 1
    }
}

/// The number of coordinates the handed-out points take, three per point,
/// saturating at the largest `usize`.
pub open spec fn required_coordinates(points: int) -> int {
    if points * 3 > usize::MAX {
        usize::MAX as int
    } else {
        points * 3
    }
}

/// What handing out a path of `point_count` points to an output buffer of
/// `output_len` coordinates does: the count returned, and how many
/// coordinates are written (`None`: the buffer is left as it is).
pub open spec fn output_plan_spec(point_count: int, output_len: int) -> (i32, Option<usize>) {
    let points = handed_out_points(point_count);
    if points > i32::MAX {
        (i32::MIN, None)
    } else if output_len < (required_coordinates(points) as u32) {
        (points as i32, None)
    } else {
        (points as i32, Some(required_coordinates(points) as usize))
    }
}

/// Decides how a path of `point_count` points (the start point first) goes
/// to an output buffer of `output_len` coordinates. The points after the
/// start are handed out, three coordinates each; a count too large for `i32`
/// gives `i32::MIN`, and a buffer too short for them is not written, though
/// the count is still returned.
pub fn plan_output(point_count: usize, output_len: u32) -> (res: (i32, Option<usize>))
    ensures
        res == output_plan_spec(point_count as int, output_len as int),
{
    let path_len = point_count.saturating_sub(1);
    if path_len > i32::MAX as usize {
        return (i32::MIN, None);
    }
    let required_output_len = if path_len > usize::MAX / 3 {
        usize::MAX
    } else {
        path_len * 3
    };
    if output_len < required_output_len as u32 {
        return (path_len as i32, None);
    }
    (path_len as i32, Some(required_output_len))
}

/// A buffer too short for the path still gets the count: the count that is
/// returned does not depend on the buffer, so a caller can resize and try
/// again, and a buffer shorter than the points need is left unwritten.
pub proof fn law_short_buffer_still_counts(point_count: int, long_len: int, short_len: int)
    requires
        point_count >= 0,
        short_len < (required_coordinates(handed_out_points(point_count)) as u32),
    ensures
        output_plan_spec(point_count, short_len).0 == output_plan_spec(point_count, long_len).0,
        output_plan_spec(point_count, short_len).1 is None,
{
}

/// Every point after the start is handed out: a path of `n >= 1` points
/// gives the count `n - 1`, and a buffer with room for its `3 * (n - 1)`
/// coordinates gets them all, while a shorter one gets none. An empty path
/// gives 0.
pub proof fn law_points_after_start_handed_out(point_count: int, output_len: int)
    requires
        0 <= point_count,
        point_count - 1 <= i32::MAX,
        3 * (point_count - 1) <= u32::MAX,
    ensures
        point_count == 0 ==> output_plan_spec(point_count, output_len) == (0i32, Some(0usize)) || output_len < 0,
        point_count >= 1 ==> output_plan_spec(point_count, output_len).0 == point_count - 1,
        point_count >= 1 ==> output_plan_spec(point_count, output_len).1 == if output_len >= 3 * (point_count - 1) {
            Some((3 * (point_count - 1)) as usize)
        } else {
            None
        },
{
}

} // verus!
