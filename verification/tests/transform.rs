use cfft::algorithms::bluestein::Bluestein;
use cfft::algorithms::cooleytukey::CooleyTukey;
use cfft::algorithms::CfftPlan;

type Sample = (f64, f64);

fn times(a: Sample, b: Sample) -> Sample {
    (a.0 * b.0 - a.1 * b.1, a.0 * b.1 + a.1 * b.0)
}

fn conj(a: Sample) -> Sample {
    (a.0, -a.1)
}

/// The root `index` of order `order`, conjugated for the forward direction.
fn root(index: usize, order: usize, forward: bool) -> Sample {
    let angle = 2.0 * std::f64::consts::PI * (index as f64) / (order as f64);
    if forward {
        (angle.cos(), -angle.sin())
    } else {
        (angle.cos(), angle.sin())
    }
}

/// Runs the stages of `plan` one after the other, each as the plain sum
/// that its butterfly stands for, with the places and twiddle factors that
/// the plan gives.
fn run(plan: &CooleyTukey, data: &mut Vec<Sample>, scale: f64, forward: bool) -> Result<(), ()> {
    let schedule = plan.passes(data.len())?;
    let len = data.len();
    let mut from = data.clone();
    let mut to = vec![(0.0, 0.0); len];
    for (stage, pass) in plan.factors().iter().zip(schedule.passes.iter()) {
        for k in 0..pass.l1 {
            for i in 0..pass.ido {
                for j in 0..pass.ip {
                    let mut sum = (0.0, 0.0);
                    for m in 0..pass.ip {
                        let term =
                            times(from[pass.input_index(i, m, k)], root((j * m) % pass.ip, pass.ip, forward));
                        sum = (sum.0 + term.0, sum.1 + term.1);
                    }
                    if i > 0 && j > 0 {
                        sum = times(sum, root(stage.tw[pass.twiddle_index(j, i)], len, forward));
                    }
                    to[pass.output_index(i, k, j)] = sum;
                }
            }
        }
        std::mem::swap(&mut from, &mut to);
    }
    if !schedule.passes.is_empty() {
        for value in from.iter_mut() {
            *value = (value.0 * scale, value.1 * scale);
        }
    }
    *data = from;
    Ok(())
}

/// The chirp convolution, with the chirp, the filter layout and the inner
/// plan that `plan` gives.
fn convolve(plan: &Bluestein, data: &mut Vec<Sample>, scale: f64, forward: bool) -> Result<(), ()> {
    if !plan.accept(data.len())? {
        return Ok(());
    }
    let n = plan.len();
    let n2 = plan.padded_len();
    let chirp: Vec<Sample> = plan.chirp().iter().map(|&index| root(index, 2 * n, false)).collect();
    let mut filter: Vec<Sample> = (0..n2)
        .map(|pos| match plan.filter_tap(pos) {
            Some(m) => (chirp[m].0 / n2 as f64, chirp[m].1 / n2 as f64),
            None => (0.0, 0.0),
        })
        .collect();
    run(plan.plan(), &mut filter, 1.0, true)?;
    let turn = |m: usize| if forward { conj(chirp[m]) } else { chirp[m] };
    let mut padded = vec![(0.0, 0.0); n2];
    for m in 0..n {
        padded[m] = times(data[m], turn(m));
    }
    run(plan.plan(), &mut padded, scale, true)?;
    for m in 0..n2 {
        padded[m] = times(padded[m], if forward { filter[m] } else { conj(filter[m]) });
    }
    run(plan.plan(), &mut padded, 1.0, false)?;
    for m in 0..n {
        data[m] = times(padded[m], turn(m));
    }
    Ok(())
}

fn transform(plan: &CfftPlan, data: &mut Vec<Sample>, scale: f64, forward: bool) -> Result<(), ()> {
    match plan {
        CfftPlan::Ct(ct) => run(ct, data, scale, forward),
        CfftPlan::Bs(bs) => convolve(bs, data, scale, forward),
    }
}

fn direct(data: &[Sample]) -> Vec<Sample> {
    let n = data.len();
    (0..n)
        .map(|k| {
            let mut sum = (0.0, 0.0);
            for (j, &x) in data.iter().enumerate() {
                let term = times(x, root((j * k) % n, n, true));
                sum = (sum.0 + term.0, sum.1 + term.1);
            }
            sum
        })
        .collect()
}

fn signal(n: usize) -> Vec<Sample> {
    (0..n)
        .map(|j| {
            let t = j as f64;
            ((0.37 * t).sin() + 0.25 * t.cos(), 0.5 - (0.11 * t * t).cos())
        })
        .collect()
}

fn close(a: &[Sample], b: &[Sample], tolerance: f64) -> bool {
    a.len() == b.len()
        && a.iter().zip(b).all(|(x, y)| (x.0 - y.0).abs() <= tolerance && (x.1 - y.1).abs() <= tolerance)
}

#[test]
fn impulse_transforms_to_all_ones() {
    let mut data = vec![(0.0, 0.0); 8];
    data[0] = (1.0, 0.0);
    run(&CooleyTukey::new(8), &mut data, 1.0, true).unwrap();
    assert!(close(&data, &vec![(1.0, 0.0); 8], 1e-15));
}

#[test]
fn constant_transforms_to_the_dc_bin() {
    let mut data = vec![(1.0, 0.0); 4];
    run(&CooleyTukey::new(4), &mut data, 1.0, true).unwrap();
    assert!(close(&data, &[(4.0, 0.0), (0.0, 0.0), (0.0, 0.0), (0.0, 0.0)], 1e-15));
}

#[test]
fn stages_of_small_lengths_give_the_direct_transform() {
    for n in 1..=64usize {
        let input = signal(n);
        let mut data = input.clone();
        run(&CooleyTukey::new(n), &mut data, 1.0, true).unwrap();
        assert!(close(&data, &direct(&input), 1e-11 * n as f64), "n = {}", n);
    }
}

#[test]
fn stages_with_every_butterfly_give_the_direct_transform() {
    for n in [2 * 3 * 5 * 7usize, 4 * 11 * 13, 3 * 17 * 4, 2 * 4 * 4 * 3 * 3] {
        let input = signal(n);
        let mut data = input.clone();
        run(&CooleyTukey::new(n), &mut data, 1.0, true).unwrap();
        assert!(close(&data, &direct(&input), 1e-10 * n as f64), "n = {}", n);
    }
}

#[test]
fn forward_then_backward_gives_the_input() {
    for n in [0usize, 1, 2, 3, 8, 30, 49, 64, 100] {
        let input = signal(n);
        let mut data = input.clone();
        let plan = CooleyTukey::new(n);
        run(&plan, &mut data, 1.0, true).unwrap();
        run(&plan, &mut data, 1.0 / n as f64, false).unwrap();
        assert!(close(&data, &input, 1e-12), "n = {}", n);
    }
}

#[test]
fn convolution_of_a_prime_length_gives_the_direct_transform() {
    let input = signal(997);
    let mut data = input.clone();
    convolve(&Bluestein::new(997), &mut data, 1.0, true).unwrap();
    assert!(close(&data, &direct(&input), 1e-8));
}

#[test]
fn convolution_of_small_lengths_gives_the_direct_transform() {
    for n in 2..=40usize {
        let input = signal(n);
        let mut data = input.clone();
        convolve(&Bluestein::new(n), &mut data, 1.0, true).unwrap();
        assert!(close(&data, &direct(&input), 1e-10 * n as f64), "n = {}", n);
    }
}

#[test]
fn convolution_forward_then_backward_gives_the_input() {
    for n in [2usize, 5, 53, 127] {
        let input = signal(n);
        let mut data = input.clone();
        let plan = Bluestein::new(n);
        convolve(&plan, &mut data, 1.0, true).unwrap();
        convolve(&plan, &mut data, 1.0 / n as f64, false).unwrap();
        assert!(close(&data, &input, 1e-11), "n = {}", n);
    }
}

#[test]
fn both_strategies_agree() {
    for n in [53usize, 122, 211] {
        let input = signal(n);
        let mut by_stages = input.clone();
        let mut by_convolution = input.clone();
        transform(&CfftPlan::new(n, false), &mut by_stages, 1.0, true).unwrap();
        transform(&CfftPlan::new(n, true), &mut by_convolution, 1.0, true).unwrap();
        assert!(close(&by_stages, &by_convolution, 1e-9), "n = {}", n);
        assert!(close(&by_stages, &direct(&input), 1e-9), "n = {}", n);
    }
}

#[test]
fn another_length_is_rejected_and_the_buffer_kept() {
    let input = signal(9);
    let mut data = input.clone();
    assert_eq!(run(&CooleyTukey::new(8), &mut data, 1.0, true), Err(()));
    assert_eq!(data, input);
    assert_eq!(convolve(&Bluestein::new(8), &mut data, 1.0, true), Err(()));
    assert_eq!(data, input);
    assert_eq!(transform(&CfftPlan::new(997, true), &mut data, 1.0, false), Err(()));
    assert_eq!(data, input);
}
