//! The exact cover matrix of a course-to-slot assignment.
use crate::nodes::matrix_view;
use vstd::prelude::*;

verus! {

/// A row of `width` cells with ones at `i` and at `sig + j` only.
pub open spec fn pair_row(sig: int, width: int, i: int, j: int) -> Seq<bool> {
    Seq::new(width as nat, |k: int| k == i || k == sig + j)
}

/// The rows for course `i` whose slots are `slots`: one per open slot, in order.
pub open spec fn slot_rows(slots: Seq<bool>, i: int, sig: int, width: int) -> Seq<Seq<bool>>
    decreases slots.len(),
{
    if slots.len() == 0 {
        seq![]
    } else {
        let pre = slot_rows(slots.drop_last(), i, sig, width);
        if slots.last() {
            pre.push(pair_row(sig, width, i, slots.len() - 1))
        } else {
            pre
        }
    }
}

/// The rows for the courses `courses`, course by course.
pub open spec fn course_rows(courses: Seq<Seq<bool>>, sig: int, width: int) -> Seq<Seq<bool>>
    decreases courses.len(),
{
    if courses.len() == 0 {
        seq![]
    } else {
        course_rows(courses.drop_last(), sig, width) + slot_rows(courses.last(), courses.len() - 1, sig, width)
    }
}

/// The matrix with a column per course, then a column per slot, and a row for each
/// open slot of each course, holding that course's column and that slot's column.
pub fn matrix_from_courses(input: &Vec<Vec<bool>>) -> (r: Vec<Vec<bool>>)
    requires
        input.len() > 0,
        forall|i: int| 0 <= i < input.len() ==> (#[trigger] input@[i]).len() <= input@[0].len(),
        input.len() + input@[0].len() <= usize::MAX,
    ensures
        matrix_view(&r) == course_rows(matrix_view(input), input.len() as int, input.len() + input@[0].len()),
{
    let ghost mv = matrix_view(input);
    let sig = input.len();
    let width = sig + input[0].len();
    let mut out: Vec<Vec<bool>> = Vec::new();
    let mut i: usize = 0;
    assert(mv.subrange(0, 0) =~= seq![]);
    assert(matrix_view(&out) =~= seq![]);
    while i < sig
        invariant
            mv == matrix_view(input),
            sig == input.len(),
            width == sig + input@[0].len(),
            forall|i: int| 0 <= i < input.len() ==> (#[trigger] input@[i]).len() <= input@[0].len(),
            i <= sig,
            matrix_view(&out) == course_rows(mv.subrange(0, i as int), sig as int, width as int),
        decreases sig - i,
    {
        let course = &input[i];
        let ghost base = matrix_view(&out);
        assert(mv[i as int] == course@);
        assert(course@.subrange(0, 0) =~= seq![]);
        let mut j: usize = 0;
        while j < course.len()
            invariant
                mv == matrix_view(input),
                sig == input.len(),
                i < sig,
                width == sig + input@[0].len(),
                course.len() <= input@[0].len(),
                j <= course.len(),
                matrix_view(&out) == base + slot_rows(course@.subrange(0, j as int), i as int, sig as int, width as int),
            decreases course.len() - j,
        {
            let ghost before = matrix_view(&out);
            assert(course@.subrange(0, j + 1).drop_last() =~= course@.subrange(0, j as int));
            if course[j] {
                let mut entry: Vec<bool> = Vec::new();
                let mut k: usize = 0;
                while k < width
                    invariant
                        k <= width,
                        j < course.len(),
                        course.len() <= input@[0].len(),
                        width == sig + input@[0].len(),
                        entry@ == pair_row(sig as int, width as int, i as int, j as int).subrange(0, k as int),
                    decreases width - k,
                {
                    entry.push(k == i || k == sig + j);
                    k = k + 1;
                    assert(entry@ =~= pair_row(sig as int, width as int, i as int, j as int).subrange(0, k as int));
                }
                assert(entry@ =~= pair_row(sig as int, width as int, i as int, j as int));
                out.push(entry);
                assert(matrix_view(&out) =~= before.push(entry@));
            }
            j = j + 1;
            assert(matrix_view(&out) =~= base + slot_rows(course@.subrange(0, j as int), i as int, sig as int, width as int));
        }
        assert(course@.subrange(0, course.len() as int) =~= course@);
        assert(mv.subrange(0, i + 1).drop_last() =~= mv.subrange(0, i as int));
        i = i + 1;
    }
    assert(mv.subrange(0, sig as int) =~= mv);
    out
}

} // verus!
