use fleet_holographic::projection::{initial_projection_draws, projection_draws, PROJECTION_SEED};

#[test]
fn test_deterministic_projections() {
    let store1 = initial_projection_draws(3, 16);
    let store2 = initial_projection_draws(3, 16);

    for a in 0..3 {
        for i in 0..16 {
            for j in 0..16 {
                assert_eq!(
                    store1[a][i][j],
                    store2[a][i][j],
                    "Projections should be deterministic for agent {}",
                    a
                );
            }
        }
    }
}

#[test]
fn projection_draws_have_the_store_shape() {
    let p = initial_projection_draws(4, 32);
    assert_eq!(p.len(), 4);
    for m in &p {
        assert_eq!(m.len(), 32);
        for row in m {
            assert_eq!(row.len(), 32);
        }
    }
}

#[test]
fn projection_draws_follow_the_generator_row_by_row() {
    let m = projection_draws(2, 42);
    assert_eq!(m[0][0], 1258627373665771185);
    assert_eq!(m[0][1], 4159066171780167020);
    assert_eq!(m[1][0], 7615522811268512075);
}

#[test]
fn agent_zero_uses_the_store_seed() {
    let p = initial_projection_draws(2, 3);
    assert_eq!(p[0], projection_draws(3, PROJECTION_SEED));
    assert_eq!(p[1], projection_draws(3, PROJECTION_SEED + 1));
    assert_eq!(p[1][0][0], 7622763597512564190);
}

#[test]
fn distinct_agents_differ_at_every_entry() {
    let p = initial_projection_draws(5, 8);
    for a in 0..5 {
        for b in 0..5 {
            if a != b {
                for i in 0..8 {
                    for j in 0..8 {
                        assert_ne!(p[a][i][j], p[b][i][j]);
                    }
                }
            }
        }
    }
}

#[test]
fn empty_shapes_give_empty_draws() {
    assert!(initial_projection_draws(0, 16).is_empty());
    let p = initial_projection_draws(3, 0);
    assert_eq!(p.len(), 3);
    assert!(p.iter().all(|m| m.is_empty()));
}
