use petri::scenarios::{boat_network, truck_network};

#[test]
fn test_truck_network_unload() {
    for period in 2..5 {
        let network = truck_network(period, true, false);
        let graph = network.network.generate_graph();

        // Only one semaphore is active at a time
        assert!(graph
            .assert_forall(|state| {
                let mut sum = 0u8;
                for &semaphore in &network.semaphores {
                    sum += state[semaphore];
                }
                sum <= 1
            })
            .is_ok());

        // initial <= 1, empty <= 1, initial + empty <= 1
        assert!(graph
            .assert_forall(|state| state[network.initial] <= 1
                && state[network.empty] <= 1
                && state[network.initial] + state[network.empty] <= 1)
            .is_ok());

        let alpha_in = network.alpha.unwrap().0;
        let alpha_loop = network.alpha.unwrap().2;

        assert!(
            graph.reaches(|state| state[network.empty] == 1 && state[alpha_in] == 1).len() > 0,
            "No state where we looped back (empty+alpha_in) was reached!"
        );
        assert!(
            graph.reaches(|state| state[network.initial] == 1 && state[alpha_loop] == 1).len() > 0,
            "No state where we looped back (alpha_loop+initial) was reached!"
        );

        // The state with (empty + semaphores[1]) is always reached
        assert!(graph
            .assert_always_reaches(|state| state[network.empty] == 1
                && state[network.semaphores[1]] == 1)
            .is_ok());
    }
}

#[test]
fn test_truck_network_load() {
    for period in 2..5 {
        let network = truck_network(period, true, true);
        let graph = network.network.generate_graph();

        assert!(graph
            .assert_forall(|state| {
                let mut sum = 0u8;
                for &semaphore in &network.semaphores {
                    sum += state[semaphore];
                }
                sum <= 1
            })
            .is_ok());

        assert!(graph
            .assert_forall(|state| state[network.initial] <= 1
                && state[network.empty] <= 1
                && state[network.full] <= 1
                && state[network.initial] + state[network.empty] + state[network.full] <= 1)
            .is_ok());

        let alpha_in = network.alpha.unwrap().0;
        let alpha_loop = network.alpha.unwrap().2;

        let beta_in = network.beta.unwrap().0;
        let beta_loop = network.beta.unwrap().2;

        assert!(
            graph.reaches(|state| state[network.empty] == 1 && state[alpha_in] == 1).len() > 0,
            "No state where we looped back (empty+alpha_in) was reached!"
        );
        assert!(
            graph.reaches(|state| state[network.initial] == 1 && state[alpha_loop] == 1).len() > 0,
            "No state where we looped back (alpha_loop+initial) was reached!"
        );
        assert!(
            graph.reaches(|state| state[network.full] == 1 && state[beta_in] == 1).len() > 0,
            "No state where we looped back (full+beta_in) was reached!"
        );
        assert!(
            graph.reaches(|state| state[network.empty] == 1 && state[beta_loop] == 1).len() > 0,
            "No state where we looped back (beta_loop+empty) was reached!"
        );

        // The state with (full + semaphores[2]) is always reached
        assert!(graph
            .assert_always_reaches(|state| state[network.full] == 1
                && state[network.semaphores[2]] == 1)
            .is_ok());
    }
}

#[test]
fn test_boat_network_unload() {
    for crane_period in 2..7 {
        for control_period in 2..7 {
            let network = boat_network(crane_period, control_period, true, false);
            let graph = network.network.generate_graph();

            // No semaphore got duplicated
            assert!(graph
                .assert_forall(|state| {
                    for &semaphore in &network.semaphores {
                        if state[semaphore] > 1 {
                            return false;
                        }
                    }
                    true
                })
                .is_ok());

            let (alpha_in, _alpha_out, alpha_loop, unload) = network.alpha.unwrap();
            let (gamma_in, _gamma_out, gamma_premove, gamma_release) = network.gamma;
            let gamma_move_unload = network.gamma_move_unload.unwrap();

            // `unload`, `gamma_premove`, `gamma_move_unload` and `gamma_release` are separated
            assert!(graph
                .assert_forall(|state| state[unload]
                    + state[gamma_premove]
                    + state[gamma_move_unload]
                    + state[gamma_release]
                    <= 1)
                .is_ok());

            assert!(graph.assert_forall(|state| state[network.initial] <= 1).is_ok());
            assert!(graph.assert_forall(|state| state[network.empty_alpha] <= 1).is_ok());
            assert!(graph.assert_forall(|state| state[network.empty_beta] <= 1).is_ok());
            assert!(graph.assert_forall(|state| state[network.full] <= 1).is_ok());
            assert!(graph.assert_forall(|state| state[network.gone] <= 1).is_ok());

            assert!(
                graph
                    .reaches(|state| state[network.empty_alpha] == 1 && state[alpha_in] == 1)
                    .len()
                    > 0,
                "No state where we looped back (empty+alpha_in) was reached!"
            );
            assert!(
                graph
                    .reaches(|state| state[network.initial] == 1 && state[alpha_loop] == 1)
                    .len()
                    > 0,
                "No state where we looped back (alpha_loop+initial) was reached!"
            );
            assert!(
                graph
                    .reaches(|state| state[gamma_premove] == 1)
                    .is_subset(&graph.reaches(|state| state[gamma_in] == 1)),
                "The subgraph that reaches (gamma_premove) isn't a subset of the subgraph that reaches (gamma_in): gamma couldn't loop!"
            );
            assert!(
                graph
                    .reaches(|state| state[gamma_premove] == 1)
                    .is_superset(&graph.reaches(|state| state[gamma_in] == 1)),
                "The subgraph that reaches (gamma_premove) isn't a superset of the subgraph that reaches (gamma_in): gamma couldn't loop!"
            );

            // The state with `empty_beta` + `semaphores[0]` + `semaphores[1]` is always reached
            assert!(graph
                .assert_always_reaches(|state| state[network.empty_beta] == 1
                    && state[network.semaphores[0]] == 1
                    && state[network.semaphores[1]] == 1)
                .is_ok());
        }
    }
}

#[test]
fn test_boat_network_load() {
    for crane_period in 2..7 {
        for control_period in 2..7 {
            let network = boat_network(crane_period, control_period, true, true);
            let graph = network.network.generate_graph();

            assert!(graph
                .assert_forall(|state| {
                    for &semaphore in &network.semaphores {
                        if state[semaphore] > 1 {
                            return false;
                        }
                    }
                    true
                })
                .is_ok());

            let (alpha_in, _alpha_out, alpha_loop, unload) = network.alpha.unwrap();
            let (beta_in, _beta_out, beta_loop, load) = network.beta.unwrap();
            let (gamma_in, _gamma_out, gamma_premove, gamma_release) = network.gamma;
            let gamma_move_unload = network.gamma_move_unload.unwrap();
            let gamma_move_load = network.gamma_move_load.unwrap();

            assert!(graph
                .assert_forall(|state| state[unload]
                    + state[gamma_premove]
                    + state[gamma_move_unload]
                    + state[gamma_move_load]
                    + state[gamma_release]
                    <= 1)
                .is_ok());
            assert!(graph
                .assert_forall(|state| state[load]
                    + state[gamma_premove]
                    + state[gamma_move_unload]
                    + state[gamma_move_load]
                    + state[gamma_release]
                    <= 1)
                .is_ok());

            assert!(graph.assert_forall(|state| state[network.initial] <= 1).is_ok());
            assert!(graph.assert_forall(|state| state[network.empty_alpha] <= 1).is_ok());
            assert!(graph.assert_forall(|state| state[network.empty_beta] <= 1).is_ok());
            assert!(graph.assert_forall(|state| state[network.full] <= 1).is_ok());
            assert!(graph.assert_forall(|state| state[network.gone] <= 1).is_ok());

            assert!(
                graph
                    .reaches(|state| state[network.empty_alpha] == 1 && state[alpha_in] == 1)
                    .len()
                    > 0,
                "No state where we looped back (empty_alpha+alpha_in) was reached!"
            );
            assert!(
                graph
                    .reaches(|state| state[network.initial] == 1 && state[alpha_loop] == 1)
                    .len()
                    > 0,
                "No state where we looped back (alpha_loop+initial) was reached!"
            );
            assert!(
                graph
                    .reaches(|state| state[network.empty_beta] == 1 && state[beta_in] == 1)
                    .len()
                    > 0,
                "No state where we looped back (empty_beta+beta_in) was reached!"
            );
            assert!(
                graph
                    .reaches(|state| state[network.full] == 1 && state[beta_loop] == 1)
                    .len()
                    > 0,
                "No state where we looped back (beta_loop+full) was reached!"
            );

            assert!(
                graph
                    .reaches(|state| state[gamma_premove] == 1)
                    .is_subset(&graph.reaches(|state| state[gamma_in] == 1)),
                "The subgraph that reaches (gamma_premove) isn't a subset of the subgraph that reaches (gamma_in): gamma couldn't loop!"
            );
            assert!(
                graph
                    .reaches(|state| state[gamma_premove] == 1)
                    .is_superset(&graph.reaches(|state| state[gamma_in] == 1)),
                "The subgraph that reaches (gamma_premove) isn't a superset of the subgraph that reaches (gamma_in): gamma couldn't loop!"
            );

            // The state with `gone` + `semaphores[0]` + `semaphores[1]` is always reached
            assert!(graph
                .assert_always_reaches(|state| state[network.gone] == 1
                    && state[network.semaphores[0]] == 1
                    && state[network.semaphores[1]] == 1)
                .is_ok());
        }
    }
}
