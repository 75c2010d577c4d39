use cfft::algorithms::bluestein::Bluestein;
use cfft::algorithms::cooleytukey::CooleyTukey;
use cfft::algorithms::pass::{next_rotator, Kernel};
use cfft::algorithms::{mixed_radix_suffices, CfftPlan};

fn radices(len: usize) -> Vec<usize> {
    CooleyTukey::new(len).factors().iter().map(|stage| stage.fct).collect()
}

#[test]
fn short_lengths_have_no_stage() {
    assert_eq!(radices(0), Vec::<usize>::new());
    assert_eq!(radices(1), Vec::<usize>::new());
    assert_eq!(CooleyTukey::factorize(0), Vec::<usize>::new());
    assert_eq!(CooleyTukey::factorize(1), Vec::<usize>::new());
}

#[test]
fn fours_come_before_odd_primes() {
    assert_eq!(radices(4), vec![4]);
    assert_eq!(radices(16), vec![4, 4]);
    assert_eq!(radices(12), vec![4, 3]);
    assert_eq!(radices(100), vec![4, 5, 5]);
    assert_eq!(CooleyTukey::factorize(48), vec![4, 4, 3]);
}

#[test]
fn a_single_two_comes_first() {
    assert_eq!(radices(2), vec![2]);
    assert_eq!(radices(6), vec![2, 3]);
    assert_eq!(radices(8), vec![2, 4]);
    assert_eq!(radices(32), vec![2, 4, 4]);
    assert_eq!(radices(360), vec![2, 4, 3, 3, 5]);
}

#[test]
fn odd_primes_ascend_and_a_large_prime_comes_last() {
    assert_eq!(radices(3 * 3 * 7 * 11), vec![3, 3, 7, 11]);
    assert_eq!(radices(997), vec![997]);
    assert_eq!(radices(2 * 13 * 13), vec![2, 13, 13]);
    assert_eq!(radices(4 * 5 * 1009), vec![4, 5, 1009]);
}

#[test]
fn radices_multiply_to_the_length() {
    for len in 2..2000usize {
        let product: usize = radices(len).iter().product();
        assert_eq!(product, len);
    }
}

#[test]
fn plan_remembers_its_length() {
    for len in [0usize, 1, 2, 7, 64, 997] {
        assert_eq!(CooleyTukey::new(len).len(), len);
    }
}

#[test]
fn twiddle_table_of_length_eight() {
    let plan = CooleyTukey::new(8);
    let stages = plan.factors();
    assert_eq!(stages.len(), 2);
    assert_eq!(stages[0].fct, 2);
    assert_eq!(stages[0].tw, vec![1, 2, 3]);
    assert!(stages[0].tws.is_empty());
    assert_eq!(stages[1].fct, 4);
    assert!(stages[1].tw.is_empty());
    assert!(stages[1].tws.is_empty());
}

#[test]
fn twiddle_table_of_length_twelve() {
    let plan = CooleyTukey::new(12);
    let stages = plan.factors();
    assert_eq!(stages[0].fct, 4);
    assert_eq!(stages[0].tw, vec![1, 2, 2, 4, 3, 6]);
    assert_eq!(stages[1].fct, 3);
    assert!(stages[1].tw.is_empty());
}

#[test]
fn twiddle_table_with_earlier_stages() {
    // 48 = 4 * 4 * 3: the second stage has l1 = 4 and ido = 3.
    let plan = CooleyTukey::new(48);
    let stages = plan.factors();
    assert_eq!(stages[1].fct, 4);
    assert_eq!(stages[1].tw, vec![4, 8, 8, 16, 12, 24]);
}

#[test]
fn large_radix_has_a_second_table() {
    let plan = CooleyTukey::new(26);
    let stages = plan.factors();
    assert_eq!(stages[0].fct, 2);
    assert_eq!(stages[0].tw, (1..=12).collect::<Vec<usize>>());
    assert!(stages[0].tws.is_empty());
    assert_eq!(stages[1].fct, 13);
    assert!(stages[1].tw.is_empty());
    assert_eq!(stages[1].tws, (0..13).map(|j| 2 * j).collect::<Vec<usize>>());
}

#[test]
fn radix_eleven_has_no_second_table() {
    let plan = CooleyTukey::new(22);
    assert_eq!(plan.factors()[1].fct, 11);
    assert!(plan.factors()[1].tws.is_empty());
}

#[test]
fn clone_of_a_stage_keeps_its_tables() {
    let plan = CooleyTukey::new(39);
    let stage = plan.factors()[1].clone();
    assert_eq!(stage.fct, 13);
    assert_eq!(stage.tw, plan.factors()[1].tw);
    assert_eq!(stage.tws, plan.factors()[1].tws);
}

#[test]
fn every_root_index_is_below_the_length() {
    for len in 2..300usize {
        let plan = CooleyTukey::new(len);
        for stage in plan.factors() {
            assert!(stage.tw.iter().all(|&root| root < len));
            assert!(stage.tws.iter().all(|&root| root < len));
        }
    }
}

#[test]
fn schedule_rejects_another_length() {
    let plan = CooleyTukey::new(8);
    assert!(plan.passes(7).is_err());
    assert!(plan.passes(9).is_err());
    assert!(plan.passes(0).is_err());
    assert!(plan.passes(8).is_ok());
    assert!(CooleyTukey::new(0).passes(1).is_err());
}

#[test]
fn schedule_of_a_short_length_is_empty() {
    for len in [0usize, 1] {
        let schedule = CooleyTukey::new(len).passes(len).unwrap();
        assert!(schedule.passes.is_empty());
        assert!(!schedule.copy_back);
    }
}

#[test]
fn schedule_of_length_eight() {
    let schedule = CooleyTukey::new(8).passes(8).unwrap();
    assert_eq!(schedule.passes.len(), 2);
    let first = schedule.passes[0];
    assert_eq!(first.kernel, Kernel::Radix2);
    assert_eq!((first.ip, first.l1, first.ido), (2, 1, 4));
    assert!(!first.in_scratch);
    let second = schedule.passes[1];
    assert_eq!(second.kernel, Kernel::Radix4);
    assert_eq!((second.ip, second.l1, second.ido), (4, 2, 1));
    assert!(second.in_scratch);
    assert!(!schedule.copy_back);
}

#[test]
fn general_butterfly_does_not_swap_the_buffers() {
    let schedule = CooleyTukey::new(26).passes(26).unwrap();
    assert_eq!(schedule.passes[0].kernel, Kernel::Radix2);
    assert_eq!(schedule.passes[1].kernel, Kernel::Generic);
    assert_eq!(
        (schedule.passes[1].ip, schedule.passes[1].l1, schedule.passes[1].ido),
        (13, 2, 1)
    );
    assert!(schedule.passes[1].in_scratch);
    assert!(schedule.copy_back);

    let prime = CooleyTukey::new(997).passes(997).unwrap();
    assert_eq!(prime.passes.len(), 1);
    assert_eq!(prime.passes[0].kernel, Kernel::Generic);
    assert!(!prime.copy_back);
}

#[test]
fn each_small_radix_has_its_butterfly() {
    let schedule = CooleyTukey::new(2 * 3 * 5 * 7 * 11).passes(2310).unwrap();
    let kernels: Vec<Kernel> = schedule.passes.iter().map(|pass| pass.kernel).collect();
    assert_eq!(
        kernels,
        vec![Kernel::Radix2, Kernel::Radix3, Kernel::Radix5, Kernel::Radix7, Kernel::Radix11]
    );
    assert!(schedule.copy_back);
}

#[test]
fn odd_number_of_stages_ends_in_the_scratch_buffer() {
    assert!(CooleyTukey::new(4).passes(4).unwrap().copy_back);
    assert!(!CooleyTukey::new(16).passes(16).unwrap().copy_back);
    assert!(CooleyTukey::new(64).passes(64).unwrap().copy_back);
}

#[test]
fn stage_geometry_multiplies_to_the_length() {
    for len in 2..500usize {
        let schedule = CooleyTukey::new(len).passes(len).unwrap();
        let mut l1 = 1;
        for pass in &schedule.passes {
            assert_eq!(pass.l1, l1);
            assert_eq!(pass.ip * pass.l1 * pass.ido, len);
            l1 *= pass.ip;
        }
        assert_eq!(l1, len);
    }
}

#[test]
fn layout_visits_every_sample_once() {
    let schedule = CooleyTukey::new(60).passes(60).unwrap();
    for pass in &schedule.passes {
        let mut read = vec![false; 60];
        let mut written = vec![false; 60];
        for k in 0..pass.l1 {
            for j in 0..pass.ip {
                for i in 0..pass.ido {
                    let from = pass.input_index(i, j, k);
                    let to = pass.output_index(i, k, j);
                    assert_eq!(from, i + pass.ido * (j + pass.ip * k));
                    assert_eq!(to, i + pass.ido * (k + pass.l1 * j));
                    assert!(!read[from] && !written[to]);
                    read[from] = true;
                    written[to] = true;
                }
            }
        }
        assert!(read.iter().all(|&seen| seen) && written.iter().all(|&seen| seen));
    }
}

#[test]
fn twiddle_index_walks_the_table_row_by_row() {
    let plan = CooleyTukey::new(12);
    let pass = plan.passes(12).unwrap().passes[0];
    assert_eq!(pass.twiddle_index(1, 1), 0);
    assert_eq!(pass.twiddle_index(1, 2), 1);
    assert_eq!(pass.twiddle_index(2, 1), 2);
    assert_eq!(pass.twiddle_index(3, 2), 5);
    for j in 1..pass.ip {
        for i in 1..pass.ido {
            assert_eq!(plan.factors()[0].tw[pass.twiddle_index(j, i)], j * pass.l1 * i);
        }
    }
}

#[test]
fn rotator_walk_counts_round_the_radix() {
    assert_eq!(next_rotator(13, 6, 3), 9);
    assert_eq!(next_rotator(13, 12, 3), 2);
    assert_eq!(next_rotator(13, 10, 3), 0);
    let mut at = 0;
    for j in 1..13usize {
        at = next_rotator(13, at, 5);
        assert_eq!(at, (j * 5) % 13);
        assert_ne!(at, 0);
    }
}

#[test]
fn chirp_holds_the_squares() {
    assert_eq!(Bluestein::new(5).chirp(), &vec![0, 1, 4, 9, 6]);
    assert_eq!(Bluestein::new(7).chirp(), &vec![0, 1, 4, 9, 2, 11, 8]);
    assert_eq!(Bluestein::new(1).chirp(), &vec![0]);
    assert!(Bluestein::new(0).chirp().is_empty());
    let plan = Bluestein::new(997);
    for (m, &root) in plan.chirp().iter().enumerate() {
        assert_eq!(root, (m * m) % 1994);
    }
}

#[test]
fn convolution_is_padded_to_a_smooth_length() {
    assert_eq!(Bluestein::new(0).padded_len(), 0);
    assert_eq!(Bluestein::new(1).padded_len(), 1);
    assert_eq!(Bluestein::new(5).padded_len(), 9);
    assert_eq!(Bluestein::new(7).padded_len(), 14);
    assert_eq!(Bluestein::new(997).padded_len(), 2000);
    let plan = Bluestein::new(997);
    assert_eq!(plan.len(), 997);
    assert_eq!(plan.plan().len(), 2000);
}

#[test]
fn filter_is_the_chirp_from_both_ends() {
    let plan = Bluestein::new(7);
    let taps: Vec<Option<usize>> = (0..14).map(|pos| plan.filter_tap(pos)).collect();
    assert_eq!(
        taps,
        vec![
            Some(0),
            Some(1),
            Some(2),
            Some(3),
            Some(4),
            Some(5),
            Some(6),
            None,
            Some(6),
            Some(5),
            Some(4),
            Some(3),
            Some(2),
            Some(1)
        ]
    );
    let tight = Bluestein::new(5);
    assert!((0..9).all(|pos| tight.filter_tap(pos).is_some()));
    for pos in 1..9 {
        assert_eq!(tight.filter_tap(pos), tight.filter_tap(9 - pos));
    }
}

#[test]
fn convolution_rejects_another_length() {
    let plan = Bluestein::new(7);
    assert_eq!(plan.accept(7), Ok(true));
    assert_eq!(plan.accept(6), Err(()));
    assert_eq!(plan.accept(14), Err(()));
    assert_eq!(Bluestein::new(1).accept(1), Ok(false));
    assert_eq!(Bluestein::new(0).accept(0), Ok(false));
    assert_eq!(Bluestein::new(0).accept(1), Err(()));
}

#[test]
fn lengths_that_factor_well_need_no_estimate() {
    assert!(mixed_radix_suffices(0));
    assert!(mixed_radix_suffices(47));
    assert!(mixed_radix_suffices(49));
    assert!(mixed_radix_suffices(50));
    assert!(mixed_radix_suffices(121));
    assert!(mixed_radix_suffices(1024));
    assert!(!mixed_radix_suffices(53));
    assert!(!mixed_radix_suffices(122));
    assert!(!mixed_radix_suffices(997));
}

#[test]
fn selector_takes_the_cheaper_strategy_only_where_it_has_a_choice() {
    assert!(matches!(CfftPlan::new(997, true), CfftPlan::Bs(_)));
    assert!(matches!(CfftPlan::new(997, false), CfftPlan::Ct(_)));
    assert!(matches!(CfftPlan::new(64, true), CfftPlan::Ct(_)));
    assert!(matches!(CfftPlan::new(47, true), CfftPlan::Ct(_)));
    assert!(matches!(CfftPlan::new(0, true), CfftPlan::Ct(_)));
    assert_eq!(CfftPlan::new(997, true).len(), 997);
    assert_eq!(CfftPlan::new(997, false).len(), 997);
    assert_eq!(CfftPlan::new(0, false).len(), 0);
}

#[test]
fn filter_meets_every_pair_at_its_distance() {
    for n in [2usize, 5, 7, 16, 53] {
        let plan = Bluestein::new(n);
        let n2 = plan.padded_len();
        assert!(n2 >= 2 * n - 1);
        for j in 0..n {
            for k in 0..n {
                let lag = (k + n2 - j) % n2;
                let distance = if k >= j { k - j } else { j - k };
                assert_eq!(plan.filter_tap(lag), Some(distance));
            }
        }
    }
}

#[test]
fn chirp_turns_products_into_distances() {
    for n in [1usize, 2, 5, 7, 16, 53] {
        let plan = Bluestein::new(n);
        let chirp = plan.chirp();
        for j in 0..n {
            for k in j..n {
                assert_eq!(
                    (chirp[j] + chirp[k]) % (2 * n),
                    (chirp[k - j] + 2 * j * k) % (2 * n)
                );
            }
        }
    }
}
