use bigint_script::mul::BigIntImpl;
use bigint_script::script::{Op, Script};
use num_bigint::{BigUint, RandomBits, ToBigUint};
use num_traits::{One, Zero};
use rand::{Rng, SeedableRng};
use rand_chacha::ChaCha20Rng;

type U254 = BigIntImpl<254, 29>;
type U64 = BigIntImpl<64, 16>;
type U8 = BigIntImpl<8, 8>;

/// A slot of the stack model: a whole big integer or a small number.
#[derive(Clone, Debug, PartialEq, Eq)]
enum Val {
    Big(BigUint),
    Num(i64),
}

fn big(x: &BigUint) -> Val {
    Val::Big(x.clone())
}

fn as_big(v: &Val) -> Option<BigUint> {
    match v {
        Val::Big(x) => Some(x.clone()),
        Val::Num(_) => None,
    }
}

/// Runs a script on the stack model with big integers taken modulo
/// 2^n_bits; `None` when an instruction does not apply.
fn run(script: &Script, n_bits: u64, main: Vec<Val>, alt: Vec<Val>) -> Option<(Vec<Val>, Vec<Val>)> {
    let modulus = BigUint::one() << n_bits;
    let mut main = main;
    let mut alt = alt;
    for op in script.ops() {
        let len = main.len();
        match *op {
            Op::Zero => main.push(Val::Big(BigUint::zero())),
            Op::Swap => {
                if len < 2 || as_big(&main[len - 1]).is_none() || as_big(&main[len - 2]).is_none() {
                    return None;
                }
                main.swap(len - 1, len - 2);
            }
            Op::Pick(d) => {
                if d >= len {
                    return None;
                }
                let x = as_big(&main[len - 1 - d])?;
                main.push(Val::Big(x));
            }
            Op::Double(d) => {
                if d >= len {
                    return None;
                }
                let x = as_big(&main[len - 1 - d])?;
                main.remove(len - 1 - d);
                main.push(Val::Big((x * 2u32) % &modulus));
            }
            Op::Add(a, b) => {
                if a >= len || b >= len || a == b {
                    return None;
                }
                let x = as_big(&main[len - 1 - a])?;
                let y = as_big(&main[len - 1 - b])?;
                let (i, j) = (len - 1 - a, len - 1 - b);
                main.remove(i.max(j));
                main.remove(i.min(j));
                main.push(Val::Big((x + y) % &modulus));
            }
            Op::ToAltDigits(w) => {
                if w == 0 || len == 0 {
                    return None;
                }
                let x = as_big(&main[len - 1])?;
                main.pop();
                let count = (n_bits + w as u64 - 1) / w as u64;
                let mask = (BigUint::one() << w) - BigUint::one();
                for i in 0..count {
                    let d = (&x >> (w as u64 * i)) & &mask;
                    alt.push(Val::Num(i64::try_from(d).unwrap()));
                }
            }
            Op::PickStack => {
                let d = match main.pop()? {
                    Val::Num(d) => d,
                    Val::Big(_) => return None,
                };
                let rest = main.len() as i64;
                if d < 0 || d >= rest {
                    return None;
                }
                let x = as_big(&main[(rest - 1 - d) as usize])?;
                main.push(Val::Big(x));
            }
            Op::ToAlt => {
                let x = as_big(main.last()?)?;
                main.pop();
                alt.push(Val::Big(x));
            }
            Op::FromAlt => {
                let x = as_big(alt.last()?)?;
                alt.pop();
                main.push(Val::Big(x));
            }
            Op::DropTop => {
                as_big(main.last()?)?;
                main.pop();
            }
            Op::PushNum(v) => main.push(Val::Num(v as i64)),
            Op::NumFromAlt => match alt.pop()? {
                Val::Num(d) => main.push(Val::Num(d)),
                Val::Big(_) => return None,
            },
            Op::NumSwap => {
                if len < 2 {
                    return None;
                }
                match (&main[len - 2], &main[len - 1]) {
                    (Val::Num(_), Val::Num(_)) => main.swap(len - 1, len - 2),
                    _ => return None,
                }
            }
            Op::NumSub => {
                if len < 2 {
                    return None;
                }
                match (&main[len - 2], &main[len - 1]) {
                    (Val::Num(a), Val::Num(b)) => {
                        let r = a - b;
                        main.truncate(len - 2);
                        main.push(Val::Num(r));
                    }
                    _ => return None,
                }
            }
        }
    }
    Some((main, alt))
}

fn print_script_size(name: &str, script: &Script) {
    println!("{} script is {} instructions", name, script.len());
}

/// The table `{0*a, 1*a, ..., (count-1)*a}` modulo 2^n_bits.
fn multiples(a: &BigUint, count: u64, n_bits: u64) -> Vec<Val> {
    let modulus = BigUint::one() << n_bits;
    (0..count).map(|k| Val::Big((a * k) % &modulus)).collect()
}

#[test]
fn test_mul_width_3_precompute() {
    let script = U254::precompute_3_mul();
    print_script_size("254-bit 3-width precompute", &script);

    let mut prng = ChaCha20Rng::seed_from_u64(0);
    let a: BigUint = prng.sample(RandomBits::new(254));

    let expected_precomputed_values = {
        let mut precomputed_values: Vec<BigUint> = vec![];
        for i in 0..1 << 3 {
            precomputed_values.push(i.to_biguint().unwrap() * a.clone());
        }

        precomputed_values
    };

    assert_eq!(
        expected_precomputed_values.len(),
        1 << 3,
        "precomputed values are incorrect"
    );
    assert_eq!(
        *expected_precomputed_values.first().unwrap(),
        0.to_biguint().unwrap(),
        "precomputed values are incorrect"
    );
    assert_eq!(
        *expected_precomputed_values.last().unwrap(),
        a.clone() * 7u32,
        "precomputed values are incorrect"
    );

    // Pushing a value as a 254-bit big integer keeps its low 254 bits, as the
    // script keeps every big integer on the stack modulo 2^254.
    let modulus = BigUint::one() << 254u32;
    let (main, alt) = run(&script, 254, vec![big(&a)], vec![]).expect("script runs");
    println!("{:?}", main.len());
    let expected: Vec<Val> = expected_precomputed_values
        .iter()
        .map(|v| Val::Big(v % &modulus))
        .collect();
    assert_eq!(main, expected, "3-width precompute test failed");
    assert!(alt.is_empty(), "3-width precompute test failed");
}

#[test]
fn test_lazy_mul_width_w_precompute() {
    const WIDTH: usize = 4;
    let script = U254::lazy_precompute_w_mul::<WIDTH>();
    print_script_size(
        format!("254-bit {:?}-width lazy precompute", WIDTH).as_str(),
        &script,
    );

    let mut prng = ChaCha20Rng::seed_from_u64(0);
    let a: BigUint = prng.sample(RandomBits::new(254));

    let expected_precomputed_values = {
        let mut precomputed_values: Vec<BigUint> = vec![];
        for i in 0..1 << WIDTH {
            precomputed_values.push(i.to_biguint().unwrap() * a.clone());
        }

        precomputed_values
    };

    assert_eq!(
        expected_precomputed_values.len(),
        1 << WIDTH,
        "precomputed values are incorrect"
    );
    assert_eq!(
        *expected_precomputed_values.first().unwrap(),
        0.to_biguint().unwrap(),
        "precomputed values are incorrect"
    );
    assert_eq!(
        *expected_precomputed_values.last().unwrap(),
        a.clone() * ((1 << WIDTH) - 1).to_biguint().unwrap(),
        "precomputed values are incorrect"
    );

    // Pushing a value as a 254-bit big integer keeps its low 254 bits, as the
    // script keeps every big integer on the stack modulo 2^254.
    let modulus = BigUint::one() << 254u32;
    let (main, alt) = run(&script, 254, vec![big(&a)], vec![]).expect("script runs");
    let expected: Vec<Val> = expected_precomputed_values
        .iter()
        .map(|v| Val::Big(v % &modulus))
        .collect();
    assert_eq!(main, expected, "lazy precompute test failed");
    assert!(alt.is_empty(), "lazy precompute test failed");
}

#[test]
fn test_mul_w_width_254bit() {
    const TESTS_NUM: usize = 10;
    const WIDTH: usize = 4;

    let script = U254::mul_width_w::<WIDTH>();
    print_script_size("254-bit w-width mul", &script);

    let mut prng = ChaCha20Rng::seed_from_u64(0);
    for _ in 0..TESTS_NUM {
        let a: BigUint = prng.sample(RandomBits::new(254));
        let b: BigUint = prng.sample(RandomBits::new(254));
        let c: BigUint = (a.clone() * b.clone()) % (BigUint::one() << 254u32);

        let (main, alt) = run(&script, 254, vec![big(&a), big(&b)], vec![]).expect("script runs");
        assert_eq!(main, vec![big(&c)]);
        assert!(alt.is_empty());
    }
}

fn doublings_in(script: &Script) -> usize {
    script.ops().iter().filter(|o| matches!(o, Op::Double(_))).count()
}

fn additions_in(script: &Script) -> usize {
    script.ops().iter().filter(|o| matches!(o, Op::Add(_, _))).count()
}

fn multiply(script: &Script, n_bits: u64, a: &BigUint, b: &BigUint) -> BigUint {
    let (main, alt) = run(script, n_bits, vec![big(a), big(b)], vec![]).expect("script runs");
    assert!(alt.is_empty());
    assert_eq!(main.len(), 1);
    as_big(&main[0]).unwrap()
}

#[test]
fn script_new_push_append() {
    let mut s = Script::new();
    assert_eq!(s.len(), 0);
    s.push(Op::Zero);
    s.push(Op::Pick(3));
    let mut t = Script::new();
    t.push(Op::Add(1, 0));
    s.append(t);
    assert_eq!(s.ops(), &[Op::Zero, Op::Pick(3), Op::Add(1, 0)]);
    assert_eq!(s.len(), 3);
}

#[test]
fn precompute_012_instructions() {
    let s = U254::precompute_012_mul();
    assert_eq!(s.ops(), &[Op::Zero, Op::Swap, Op::Pick(0), Op::Double(0)]);
}

#[test]
fn precompute_2_instructions() {
    let s = U254::precompute_2_mul();
    assert_eq!(
        s.ops(),
        &[
            Op::Zero,
            Op::Swap,
            Op::Pick(0),
            Op::Double(0),
            Op::Pick(1),
            Op::Pick(1),
            Op::Add(0, 1)
        ]
    );
}

#[test]
fn precompute_3_and_4_extend_the_smaller_schedules() {
    let s2 = U254::precompute_2_mul();
    let s3 = U254::precompute_3_mul();
    let s4 = U254::precompute_4_mul();
    assert_eq!(s3.len(), 17);
    assert_eq!(s4.len(), 37);
    assert_eq!(&s3.ops()[..7], s2.ops());
    assert_eq!(&s4.ops()[..17], s3.ops());
    assert_eq!(
        &s3.ops()[7..],
        &[
            Op::Pick(1),
            Op::Double(0),
            Op::Pick(3),
            Op::Pick(1),
            Op::Add(0, 1),
            Op::Pick(2),
            Op::Double(0),
            Op::Pick(5),
            Op::Pick(1),
            Op::Add(0, 1)
        ]
    );
    assert_eq!(&s4.ops()[35..], &[Op::Pick(1), Op::Add(1, 0)]);
}

#[test]
fn lazy_precompute_instructions() {
    let s = U254::lazy_precompute_w_mul::<5>();
    assert_eq!(s.len(), 4 + 3 * 29);
    assert_eq!(&s.ops()[..4], U254::precompute_012_mul().ops());
    assert_eq!(&s.ops()[4..7], &[Op::Pick(0), Op::Pick(2), Op::Add(0, 1)]);
    assert_eq!(&s.ops()[88..], &[Op::Pick(0), Op::Pick(30), Op::Add(0, 1)]);
}

#[test]
fn precompute_w_picks_the_schedule() {
    assert_eq!(U254::precompute_w_mul::<2>().ops(), U254::precompute_2_mul().ops());
    assert_eq!(U254::precompute_w_mul::<3>().ops(), U254::precompute_3_mul().ops());
    assert_eq!(U254::precompute_w_mul::<4>().ops(), U254::precompute_4_mul().ops());
    assert_eq!(
        U254::precompute_w_mul::<5>().ops(),
        U254::lazy_precompute_w_mul::<5>().ops()
    );
    assert_eq!(
        U254::precompute_w_mul::<7>().ops(),
        U254::lazy_precompute_w_mul::<7>().ops()
    );
}

#[test]
fn precompute_costs() {
    let lazy4 = U254::lazy_precompute_w_mul::<4>();
    assert_eq!((doublings_in(&lazy4), additions_in(&lazy4)), (1, 13));
    let lazy6 = U254::lazy_precompute_w_mul::<6>();
    assert_eq!((doublings_in(&lazy6), additions_in(&lazy6)), (1, 61));
    let s2 = U254::precompute_2_mul();
    assert_eq!((doublings_in(&s2), additions_in(&s2)), (1, 1));
    let s3 = U254::precompute_3_mul();
    assert_eq!((doublings_in(&s3), additions_in(&s3)), (3, 3));
    let s4 = U254::precompute_4_mul();
    assert_eq!((doublings_in(&s4), additions_in(&s4)), (7, 7));
}

#[test]
fn precompute_tables_keep_the_rest_of_both_stacks() {
    let z = BigUint::from(0xdead_beef_u64);
    let below = vec![Val::Num(7), Val::Big(BigUint::from(99u32))];
    let alt = vec![Val::Num(3), Val::Big(BigUint::from(5u32))];
    for (script, count) in [
        (U64::precompute_012_mul(), 3),
        (U64::precompute_2_mul(), 4),
        (U64::precompute_3_mul(), 8),
        (U64::precompute_4_mul(), 16),
        (U64::lazy_precompute_w_mul::<2>(), 4),
        (U64::lazy_precompute_w_mul::<4>(), 16),
        (U64::precompute_w_mul::<6>(), 64),
    ] {
        let mut main = below.clone();
        main.push(big(&z));
        let (main, alt_after) = run(&script, 64, main, alt.clone()).expect("script runs");
        let mut expected = below.clone();
        expected.extend(multiples(&z, count, 64));
        assert_eq!(main, expected);
        assert_eq!(alt_after, alt);
    }
}

#[test]
fn precompute_tables_wrap_modulo_two_to_the_n() {
    // 200 * 15 = 3000 = 11 * 256 + 184
    let z = BigUint::from(200u32);
    let (main, _) = run(&U8::precompute_4_mul(), 8, vec![big(&z)], vec![]).unwrap();
    assert_eq!(main[15], Val::Big(BigUint::from(184u32)));
    assert_eq!(main[2], Val::Big(BigUint::from(144u32)));
    let (lazy, _) = run(&U8::lazy_precompute_w_mul::<4>(), 8, vec![big(&z)], vec![]).unwrap();
    assert_eq!(main, lazy);
}

#[test]
fn mul_width_w_instruction_count() {
    // 254 bits in width 4: 64 digits, rounds of 4 doublings and 6 more instructions.
    let s = U254::mul_width_w::<4>();
    assert_eq!(s.len(), 1 + 37 + 1 + 64 * (4 + 6) + 1 + 16 + 1);
    assert_eq!(s.ops()[0], Op::ToAltDigits(4));
    assert_eq!(
        &s.ops()[39..49],
        &[
            Op::Double(0),
            Op::Double(0),
            Op::Double(0),
            Op::Double(0),
            Op::NumFromAlt,
            Op::PushNum(16),
            Op::NumSwap,
            Op::NumSub,
            Op::PickStack,
            Op::Add(0, 1)
        ]
    );
    assert_eq!(s.ops()[s.len() - 1], Op::FromAlt);
    assert_eq!(s.ops()[s.len() - 2], Op::DropTop);
}

#[test]
fn widening_mul_is_the_same_script() {
    assert_eq!(
        U254::widening_mul_width_w::<4>().ops(),
        U254::mul_width_w::<4>().ops()
    );
    assert_eq!(
        U64::widening_mul_width_w::<3>().ops(),
        U64::mul_width_w::<3>().ops()
    );
}

#[test]
fn mul_64_bit_edge_values() {
    let max = BigUint::from(u64::MAX);
    let zero = BigUint::zero();
    let one = BigUint::one();
    for script in [
        U64::mul_width_w::<2>(),
        U64::mul_width_w::<3>(),
        U64::mul_width_w::<4>(),
        U64::mul_width_w::<5>(),
        U64::widening_mul_width_w::<6>(),
    ] {
        assert_eq!(multiply(&script, 64, &max, &max), one);
        assert_eq!(multiply(&script, 64, &zero, &max), zero);
        assert_eq!(multiply(&script, 64, &max, &zero), zero);
        assert_eq!(multiply(&script, 64, &one, &max), max);
        assert_eq!(
            multiply(&script, 64, &BigUint::from(1u64 << 32), &BigUint::from(1u64 << 32)),
            zero
        );
        assert_eq!(
            multiply(&script, 64, &BigUint::from(123_456_789u64), &BigUint::from(987_654_321u64)),
            BigUint::from(121_932_631_112_635_269u64)
        );
    }
}

#[test]
fn mul_8_bit_all_pairs() {
    let s3 = U8::mul_width_w::<3>();
    let s5 = U8::mul_width_w::<5>();
    for a in 0u32..256 {
        for b in (0u32..256).step_by(5) {
            let expected = BigUint::from((a * b) % 256);
            let (x, y) = (BigUint::from(a), BigUint::from(b));
            assert_eq!(multiply(&s3, 8, &x, &y), expected);
            assert_eq!(multiply(&s5, 8, &x, &y), expected);
        }
    }
}

#[test]
fn mul_254_bit_other_widths() {
    let modulus = BigUint::one() << 254u32;
    let mut prng = ChaCha20Rng::seed_from_u64(1);
    let scripts = [
        U254::mul_width_w::<2>(),
        U254::mul_width_w::<3>(),
        U254::mul_width_w::<5>(),
    ];
    for _ in 0..3 {
        let a: BigUint = prng.sample(RandomBits::new(254));
        let b: BigUint = prng.sample(RandomBits::new(254));
        let c = (&a * &b) % &modulus;
        for script in &scripts {
            assert_eq!(multiply(script, 254, &a, &b), c);
        }
    }
}

#[test]
fn mul_keeps_the_rest_of_both_stacks() {
    let below = vec![Val::Big(BigUint::from(42u32)), Val::Num(-4)];
    let alt = vec![Val::Num(11), Val::Big(BigUint::from(12u32))];
    let a = BigUint::from(0x1234_5678_9abc_def0_u64);
    let b = BigUint::from(0x0fed_cba9_8765_4321_u64);
    let mut main = below.clone();
    main.push(big(&a));
    main.push(big(&b));
    let (main, alt_after) = run(&U64::mul_width_w::<4>(), 64, main, alt.clone()).unwrap();
    let mut expected = below.clone();
    expected.push(Val::Big((&a * &b) % (BigUint::one() << 64u32)));
    assert_eq!(main, expected);
    assert_eq!(alt_after, alt);
}

#[test]
fn mul_needs_two_big_integers() {
    let a = BigUint::from(3u32);
    let s = U64::mul_width_w::<4>();
    assert!(run(&s, 64, vec![big(&a)], vec![]).is_none());
    assert!(run(&s, 64, vec![big(&a), Val::Num(2)], vec![]).is_none());
}
