//! Integer trigonometry for the visibility rays: sine and cosine in
//! thousandths, from a quarter-wave table of rounded values, extended to a
//! full turn by symmetry. Exact integer contracts take the place of
//! floating-point evaluation; the rays they produce are spaced just as
//! evenly, to a thousandth.
use vstd::prelude::*;

verus! {

/// Sine of `d` degrees, for `0 <= d <= 90`, in thousandths (rounded to the
/// nearest integer).
pub open spec fn sin_q_milli(d: int) -> int {
    if d == 0 {
        0
    } else if d == 1 {
        17
    } else if d == 2 {
        35
    } else if d == 3 {
        52
    } else if d == 4 {
        70
    } else if d == 5 {
        87
    } else if d == 6 {
        105
    } else if d == 7 {
        122
    } else if d == 8 {
        139
    } else if d == 9 {
        156
    } else if d == 10 {
        174
    } else if d == 11 {
        191
    } else if d == 12 {
        208
    } else if d == 13 {
        225
    } else if d == 14 {
        242
    } else if d == 15 {
        259
    } else if d == 16 {
        276
    } else if d == 17 {
        292
    } else if d == 18 {
        309
    } else if d == 19 {
        326
    } else if d == 20 {
        342
    } else if d == 21 {
        358
    } else if d == 22 {
        375
    } else if d == 23 {
        391
    } else if d == 24 {
        407
    } else if d == 25 {
        423
    } else if d == 26 {
        438
    } else if d == 27 {
        454
    } else if d == 28 {
        469
    } else if d == 29 {
        485
    } else if d == 30 {
        500
    } else if d == 31 {
        515
    } else if d == 32 {
        530
    } else if d == 33 {
        545
    } else if d == 34 {
        559
    } else if d == 35 {
        574
    } else if d == 36 {
        588
    } else if d == 37 {
        602
    } else if d == 38 {
        616
    } else if d == 39 {
        629
    } else if d == 40 {
        643
    } else if d == 41 {
        656
    } else if d == 42 {
        669
    } else if d == 43 {
        682
    } else if d == 44 {
        695
    } else if d == 45 {
        707
    } else if d == 46 {
        719
    } else if d == 47 {
        731
    } else if d == 48 {
        743
    } else if d == 49 {
        755
    } else if d == 50 {
        766
    } else if d == 51 {
        777
    } else if d == 52 {
        788
    } else if d == 53 {
        799
    } else if d == 54 {
        809
    } else if d == 55 {
        819
    } else if d == 56 {
        829
    } else if d == 57 {
        839
    } else if d == 58 {
        848
    } else if d == 59 {
        857
    } else if d == 60 {
        866
    } else if d == 61 {
        875
    } else if d == 62 {
        883
    } else if d == 63 {
        891
    } else if d == 64 {
        899
    } else if d == 65 {
        906
    } else if d == 66 {
        914
    } else if d == 67 {
        921
    } else if d == 68 {
        927
    } else if d == 69 {
        934
    } else if d == 70 {
        940
    } else if d == 71 {
        946
    } else if d == 72 {
        951
    } else if d == 73 {
        956
    } else if d == 74 {
        961
    } else if d == 75 {
        966
    } else if d == 76 {
        970
    } else if d == 77 {
        974
    } else if d == 78 {
        978
    } else if d == 79 {
        982
    } else if d == 80 {
        985
    } else if d == 81 {
        988
    } else if d == 82 {
        990
    } else if d == 83 {
        993
    } else if d == 84 {
        995
    } else if d == 85 {
        996
    } else if d == 86 {
        998
    } else if d == 87 {
        999
    } else if d == 88 {
        999
    } else if d == 89 {
        1000
    } else {
        1000
    }
}

/// Sine of `d` degrees in thousandths, for a full turn `0 <= d < 360`, by
/// quarter-wave symmetry.
pub open spec fn sin_milli(d: int) -> int {
    if d <= 90 {
        sin_q_milli(d)
    } else if d <= 180 {
        sin_q_milli(180 - d)
    } else if d <= 270 {
        -sin_q_milli(d - 180)
    } else {
        -sin_q_milli(360 - d)
    }
}

/// Cosine of `d` degrees in thousandths, for `0 <= d < 360`.
pub open spec fn cos_milli(d: int) -> int {
    if d <= 90 {
        sin_q_milli(90 - d)
    } else if d <= 180 {
        -sin_q_milli(d - 90)
    } else if d <= 270 {
        -sin_q_milli(270 - d)
    } else {
        sin_q_milli(d - 270)
    }
}

/// Quarter-wave sine lookup.
pub fn sin_q(d: u64) -> (r: i64)
    requires
        d <= 90,
    ensures
        r == sin_q_milli(d as int),
        0 <= r <= 1000,
{
    let table: [i64; 91] = [
        0, 17, 35, 52, 70, 87, 105, 122, 139, 156, 174, 191, 208, 225, 242, 259, 276, 292, 309, 326, 342, 358, 375, 391, 407, 423, 438, 454, 469, 485, 500, 515, 530, 545, 559, 574, 588, 602, 616, 629, 643, 656, 669, 682, 695, 707, 719, 731, 743, 755, 766, 777, 788, 799, 809, 819, 829, 839, 848, 857, 866, 875, 883, 891, 899, 906, 914, 921, 927, 934, 940, 946, 951, 956, 961, 966, 970, 974, 978, 982, 985, 988, 990, 993, 995, 996, 998, 999, 999, 1000, 1000,
    ];
    let r = table[d as usize];
    proof {
        assert(0 <= sin_q_milli(d as int) <= 1000);
    }
    r
}

/// Full-turn sine lookup in thousandths.
pub fn sin_deg(d: u64) -> (r: i64)
    requires
        d < 360,
    ensures
        r == sin_milli(d as int),
        -1000 <= r <= 1000,
{
    if d <= 90 {
        sin_q(d)
    } else if d <= 180 {
        sin_q(180 - d)
    } else if d <= 270 {
        -sin_q(d - 180)
    } else {
        -sin_q(360 - d)
    }
}

/// Full-turn cosine lookup in thousandths.
pub fn cos_deg(d: u64) -> (r: i64)
    requires
        d < 360,
    ensures
        r == cos_milli(d as int),
        -1000 <= r <= 1000,
{
    if d <= 90 {
        sin_q(90 - d)
    } else if d <= 180 {
        -sin_q(d - 90)
    } else if d <= 270 {
        -sin_q(270 - d)
    } else {
        sin_q(d - 270)
    }
}

} // verus!
