use rand::distributions::{Distribution, Uniform};
use rand::thread_rng;
use segsum::SegSum;
use std::cmp::max;

const M: usize = 64;

#[test]
fn test_seg() {
    let mut seg = SegSum::new(0, M as i64);
    let mut reference = vec![0; M];
    let mut g = thread_rng();
    let distr = Uniform::from(0..M as i64);
    let distr2 = Uniform::from(0..M as i64 + 1);
    let distr3 = Uniform::from(-10..11);
    for _ in 0..10000 {
        if distr.sample(&mut g) % 2 == 0 {
            let mut a: i64 = distr.sample(&mut g);
            let mut b: i64 = max(distr2.sample(&mut g), a);
            while a >= b {
                a = distr.sample(&mut g);
                b = max(distr2.sample(&mut g), a);
            }
            let delta: i64 = distr3.sample(&mut g);
            println!("add: [{},{}), {}", a, b, delta);
            seg.add(a as _, b as _, &delta);
            for j in a..b {
                reference[j as usize] += delta;
            }
        } else {
            let mut a: i64 = distr.sample(&mut g);
            let mut b: i64 = max(distr2.sample(&mut g), a);
            while a >= b {
                a = distr.sample(&mut g);
                b = max(distr2.sample(&mut g), a);
            }
            let val: i64 = distr3.sample(&mut g);
            seg.update(a as i64, b as i64, &val);
            for h in a..b {
                reference[h as usize] = val;
            }
            println!("update: [{},{}), {}", a, b, val);
        }
    }

    for i in 1..M {
        for j in 1..M + 1 {
            let v = seg.query_range(i as i64, j as i64);
            let mut expect = 0;
            for k in i..j {
                expect += reference[k];
            }
            assert_eq!(expect, v, "not matching: [{},{}), {}, {}", i, j, expect, v);
        }
    }
}
