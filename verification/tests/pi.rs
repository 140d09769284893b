use chudnovsky::integer::Integer;
use chudnovsky::pell::{calc_sqrt_pell, pell_step, Convergent, SquareRoot};
use chudnovsky::pi::{
    assemble, compute_pi, pi_from_parts, render, term_count, DIGITS_PER_TERM, SCALE,
};
use chudnovsky::rational::Ratio;
use chudnovsky::splitting::{i_compute_pqt, Pqt, Segment};
use num_bigint::BigInt;

// The first thousand digits of pi, by Machin's formula.
const PI_1000: &str = "\
    3141592653589793238462643383279502884197169399375105820974944592307816406286208998628034825342117067\
    9821480865132823066470938446095505822317253594081284811174502841027019385211055596446229489549303819\
    6442881097566593344612847564823378678316527120190914564856692346034861045432664821339360726024914127\
    3724587006606315588174881520920962829254091715364367892590360011330530548820466521384146951941511609\
    4330572703657595919530921861173819326117931051185480744623799627495673518857527248912279381830119491\
    2983367336244065664308602139494639522473719070217986094370277053921717629317675238467481846766940513\
    2000568127145263560827785771342757789609173637178721468440901224953430146549585371050792279689258923\
    5420199561121290219608640344181598136297747713099605187072113499999983729780499510597317328160963185\
    9502445945534690830264252230825334468503526193118817101000313783875288658753320838142061717766914730\
    3598253490428755468731159562863882353787593751957781857780532171226806613001927876611195909216420198\
";

fn whole(v: i128) -> Integer {
    Integer::from_i128(v)
}

fn ratio(num: i128, den: i128) -> Ratio {
    Ratio { num: whole(num), den: whole(den) }
}

#[test]
fn one_digit() {
    assert_eq!(compute_pi(1), Some(String::from("3")));
}

#[test]
fn ten_digits() {
    assert_eq!(compute_pi(10), Some(String::from("3141592653")));
}

#[test]
fn hundred_digits() {
    let want = "3141592653589793238462643383279502884197169399375105820974944592307816406286208998628034825342117067";
    assert_eq!(want.len(), 100);
    assert_eq!(compute_pi(100).as_deref(), Some(want));
}

#[test]
fn thousand_digits() {
    assert_eq!(PI_1000.len(), 1000);
    let got = compute_pi(1000).unwrap();
    assert_eq!(got, PI_1000);
    assert_eq!(&got[762..768], "999999");
}

#[test]
fn no_digits() {
    assert_eq!(compute_pi(0), None);
}

#[test]
fn every_length_up_to_three_hundred() {
    for digits in 1..=300u32 {
        let got = compute_pi(digits).unwrap();
        assert_eq!(got, &PI_1000[..digits as usize]);
    }
}

#[test]
fn lengths_about_the_term_boundaries() {
    for digits in [13u32, 14, 15, 27, 28, 29, 41, 42, 43, 699, 700, 701] {
        let got = compute_pi(digits).unwrap();
        assert_eq!(got.len(), digits as usize);
        assert_eq!(got, &PI_1000[..digits as usize]);
    }
}

#[test]
fn digits_only() {
    let got = compute_pi(500).unwrap();
    assert!(got.starts_with('3'));
    assert!(got.chars().all(|c| c.is_ascii_digit()));
}

#[test]
fn two_runs_agree() {
    for digits in [1u32, 10, 100, 777] {
        let first = compute_pi(digits).unwrap();
        let second = compute_pi(digits).unwrap();
        assert_eq!(first.as_bytes(), second.as_bytes());
    }
}

#[test]
fn longer_runs_extend_shorter_ones() {
    let long = compute_pi(5000).unwrap();
    assert_eq!(long.len(), 5000);
    assert_eq!(&long[..1000], PI_1000);
    let short = compute_pi(2500).unwrap();
    assert_eq!(&long[..2500], short);
}

#[test]
fn term_count_has_a_margin() {
    assert_eq!(DIGITS_PER_TERM, 14);
    assert_eq!(term_count(0), 1);
    assert_eq!(term_count(1), 1);
    assert_eq!(term_count(13), 1);
    assert_eq!(term_count(14), 2);
    assert_eq!(term_count(100), 8);
    assert_eq!(term_count(1000), 72);
    assert_eq!(term_count(u32::MAX), 306783379);
}

#[test]
fn assemble_by_the_formula() {
    assert_eq!(SCALE, 426880);
    let pqt = Pqt { p: whole(5), q: whole(10939058860032000), t: whole(-2793657715) };
    let root = Convergent { x: whole(32016001), y: whole(320080) };
    let r = assemble(pqt, root);
    assert_eq!(r.num.to_decimal(), "149504013594258898653020160000");
    assert_eq!(r.den.to_decimal(), "47588605551208420127405622800");
}

#[test]
fn assemble_with_no_terms() {
    let pqt = Pqt { p: whole(1), q: whole(1), t: whole(0) };
    let root = Convergent { x: whole(4001), y: whole(40) };
    let r = assemble(pqt, root);
    assert_eq!(r.num.to_decimal(), "1707946880");
    assert_eq!(r.den.to_decimal(), "543656360");
    assert_eq!(render(&r, 21), "314159275171544024611");
}

#[test]
fn render_rounds_down() {
    assert_eq!(render(&ratio(22, 7), 1), "3");
    assert_eq!(render(&ratio(22, 7), 5), "31428");
    assert_eq!(render(&ratio(1, 3), 1), "0");
    assert_eq!(render(&ratio(1, 3), 4), "333");
    assert_eq!(render(&ratio(0, 5), 3), "0");
    assert_eq!(render(&ratio(39, 4), 1), "9");
    assert_eq!(render(&ratio(40, 4), 1), "10");
}

#[test]
fn render_with_signs() {
    // 22 / 7 is 3.142857..., and the floor of -31428.57... is -31429.
    assert_eq!(render(&ratio(-22, 7), 5), "-31429");
    assert_eq!(render(&ratio(22, -7), 5), "-31429");
    assert_eq!(render(&ratio(-22, -7), 5), "31428");
    assert_eq!(render(&ratio(-3, -2), 1), "1");
    assert_eq!(render(&ratio(-3, -2), 3), "150");
    assert_eq!(render(&ratio(3, -2), 1), "-2");
    assert_eq!(render(&ratio(-21, -7), 4), "3000");
    assert_eq!(render(&ratio(0, -7), 4), "0");
}

#[test]
fn render_writes_as_many_digits_as_asked() {
    for (num, den) in [(1i128, 1i128), (22, 7), (-22, -7), (99, 10), (-99, -10), (10, 10)] {
        for digits in [1u32, 2, 9, 40] {
            let s = render(&ratio(num, den), digits);
            assert_eq!(s.len(), digits as usize);
            assert!(s.chars().all(|c| c.is_ascii_digit()));
            assert!(!s.starts_with('0'));
        }
    }
    assert_eq!(render(&ratio(99, 10), 1), "9");
    assert_eq!(render(&ratio(99, 10), 4), "9900");
    assert_eq!(render(&ratio(-99, -10), 2), "99");
}

fn forked(n1: u64, n2: u64, width: u64) -> Segment {
    if n2 - n1 <= width {
        return Segment::compute(n1, n2).unwrap();
    }
    let mid = n1 + (n2 - n1) / 3;
    forked(n1, mid, width).join(forked(mid, n2, width)).unwrap()
}

#[test]
fn parts_computed_apart() {
    for digits in [1u32, 10, 100, 400] {
        let series = forked(0, term_count(digits), 2);
        let root = SquareRoot::compute(digits);
        assert_eq!(pi_from_parts(series, root), compute_pi(digits));
    }
}

#[test]
fn parts_computed_out_of_order() {
    let digits = 1000u32;
    let n = term_count(digits);
    let mid = n / 2;
    let right = Segment::compute(mid, n).unwrap();
    let root = SquareRoot::compute(digits);
    let left = Segment::compute(0, mid).unwrap();
    let series = left.join(right).unwrap();
    assert_eq!(pi_from_parts(series, root).as_deref(), Some(PI_1000));
}

#[test]
fn parts_that_do_not_belong() {
    let series = |n1, n2| Segment::compute(n1, n2).unwrap();
    // No digits.
    assert_eq!(pi_from_parts(series(0, 1), SquareRoot::compute(0)), None);
    // Too few indices, too many, and not from the start.
    assert_eq!(pi_from_parts(series(0, 1), SquareRoot::compute(14)), None);
    assert_eq!(pi_from_parts(series(0, 3), SquareRoot::compute(14)), None);
    assert_eq!(pi_from_parts(series(1, 2), SquareRoot::compute(14)), None);
    let fourteen = pi_from_parts(series(0, 2), SquareRoot::compute(14));
    assert_eq!(fourteen.as_deref(), Some("31415926535897"));
    // A root for other digits.
    assert_eq!(pi_from_parts(series(0, 2), SquareRoot::compute(13)), None);
    assert_eq!(pi_from_parts(series(0, 2), SquareRoot::compute(28)), None);
    assert_eq!(pi_from_parts(series(0, 2), SquareRoot::compute(27)).unwrap(), &PI_1000[..27]);
}

#[test]
fn parts_of_no_value() {
    let r = assemble(
        Pqt { p: whole(1), q: whole(1), t: whole(-13591410) },
        Convergent { x: whole(32016001), y: whole(320080) },
    );
    assert_eq!(r.den.to_decimal(), "-320080");
    // 136669905068800 / -320080 is -426986706.8...
    assert_eq!(render(&r, 2), "-426986707");
}

fn fraction_of(r: &Ratio) -> (BigInt, BigInt) {
    (BigInt::from_signed_bytes_le(&r.num.bytes), BigInt::from_signed_bytes_le(&r.den.bytes))
}

#[test]
fn further_terms_and_steps_change_little() {
    for digits in [1u32, 13, 14, 15, 100, 500] {
        let n = term_count(digits);
        let (root, _) = calc_sqrt_pell(digits);
        let (f_num, f_den) = fraction_of(&assemble(i_compute_pqt(0, n), root));
        assert!(f_den > BigInt::from(0));
        for (more_terms, more_steps) in [(1u64, 0u32), (0, 1), (3, 2), (40, 1)] {
            // Take the recurrence further by hand.
            let mut a = Convergent { x: whole(1), y: whole(0) };
            let mut b = Convergent { x: whole(4001), y: whole(40) };
            let (_, steps) = calc_sqrt_pell(digits);
            for _ in 0..steps + more_steps {
                let next = pell_step(&a, &b);
                a = b;
                b = next;
            }
            let (g_num, g_den) = fraction_of(&assemble(i_compute_pqt(0, n + more_terms), b));
            let cross = &f_num * &g_den - &g_num * &f_den;
            let bound = &f_den * &g_den;
            let scaled = cross.magnitude() * BigInt::from(10).pow(digits + 2).magnitude();
            assert!(&scaled <= bound.magnitude());
        }
    }
}
