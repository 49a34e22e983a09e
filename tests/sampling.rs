use nander::binary::Binary;
use nander::sampling::{binary_of_sample, BinaryDistribution, Random};

#[test]
fn binary_distribution_draws_both_digits() {
    let mut d = BinaryDistribution::uniform();
    let draws: [Binary; 200] = d.gen_n::<200>();
    assert!(draws.iter().any(|&b| b == Binary::One));
    assert!(draws.iter().any(|&b| b == Binary::Zero));
}

#[test]
fn binary_of_sample_maps_digits() {
    assert_eq!(binary_of_sample(0), Binary::Zero);
    assert_eq!(binary_of_sample(1), Binary::One);
}

#[test]
fn f32_experiment() {
    let f = |x: f32| {
        println!("=={}==", x);
        let bytes = x.fract().to_be_bytes();
        let bits: Vec<String> = bytes.iter().map(|&x| format!("{:08b}", x)).collect();
        println!("{}", bits.concat());
    };
    f(0.5);
    f(0.75);
    f(0.625);
    f(0.125);
    f(-0.5);
    f(-0.125);
    f(0.33);
}
