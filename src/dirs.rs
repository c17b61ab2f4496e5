use vstd::prelude::*;

verus! {

/// The eight knight jumps.
pub open spec fn knight_dir(i: int) -> (int, int) {
    if i == 0 { (1, 2) }
    else if i == 1 { (2, 1) }
    else if i == 2 { (2, -1) }
    else if i == 3 { (1, -2) }
    else if i == 4 { (-1, -2) }
    else if i == 5 { (-2, -1) }
    else if i == 6 { (-2, 1) }
    else { (-1, 2) }
}

/// The four orthogonal unit steps.
pub open spec fn rook_dir(i: int) -> (int, int) {
    if i == 0 { (1, 0) }
    else if i == 1 { (-1, 0) }
    else if i == 2 { (0, 1) }
    else { (0, -1) }
}

/// The four diagonal unit steps.
pub open spec fn bishop_dir(i: int) -> (int, int) {
    if i == 0 { (1, 1) }
    else if i == 1 { (1, -1) }
    else if i == 2 { (-1, 1) }
    else { (-1, -1) }
}

/// The eight unit steps: the orthogonal ones, then the diagonal ones.
pub open spec fn king_dir(i: int) -> (int, int) {
    if i < 4 { rook_dir(i) } else { bishop_dir(i - 4) }
}

pub fn knight_step(i: usize) -> (r: (i8, i8))
    requires
        i < 8,
    ensures
        r.0 as int == knight_dir(i as int).0,
        r.1 as int == knight_dir(i as int).1,
{
    match i {
        0 => (1, 2),
        1 => (2, 1),
        2 => (2, -1),
        3 => (1, -2),
        4 => (-1, -2),
        5 => (-2, -1),
        6 => (-2, 1),
        _ => (-1, 2),
    }
}

pub fn rook_step(i: usize) -> (r: (i8, i8))
    requires
        i < 4,
    ensures
        r.0 as int == rook_dir(i as int).0,
        r.1 as int == rook_dir(i as int).1,
{
    match i {
        0 => (1, 0),
        1 => (-1, 0),
        2 => (0, 1),
        _ => (0, -1),
    }
}

pub fn bishop_step(i: usize) -> (r: (i8, i8))
    requires
        i < 4,
    ensures
        r.0 as int == bishop_dir(i as int).0,
        r.1 as int == bishop_dir(i as int).1,
{
    match i {
        0 => (1, 1),
        1 => (1, -1),
        2 => (-1, 1),
        _ => (-1, -1),
    }
}

pub fn king_step(i: usize) -> (r: (i8, i8))
    requires
        i < 8,
    ensures
        r.0 as int == king_dir(i as int).0,
        r.1 as int == king_dir(i as int).1,
{
    if i < 4 {
        rook_step(i)
    } else {
        bishop_step(i - 4)
    }
}

} // verus!
