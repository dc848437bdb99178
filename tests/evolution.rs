use neat::speciation::place_offspring;
use neat::population::{even_share, plan_generation, surviving_species};
use neat::species::{cull_count, next_staleness};

#[test]
fn stagnant_species_are_removed() {
    assert_eq!(surviving_species(&vec![0, 35, 3, 40], 35), vec![0, 2]);
}

#[test]
fn the_last_species_is_kept() {
    assert_eq!(surviving_species(&vec![50], 35), vec![0]);
    assert_eq!(surviving_species(&vec![50, 36], 35), vec![0]);
    assert!(surviving_species(&vec![], 35).is_empty());
}

#[test]
fn plateau_reaches_the_limit() {
    let mut s = 0;
    for _ in 0..5 {
        s = next_staleness(s, false);
    }
    assert_eq!(s, 5);
    assert_eq!(surviving_species(&vec![s, 0], 5), vec![1]);
    assert_eq!(next_staleness(s, true), 0);
}

#[test]
fn plan_fills_the_population_exactly() {
    let p = plan_generation(10, &vec![4, 1, 0], 2, &vec![5, 2, 3]);
    assert_eq!(p.elites, vec![2, 0, 0]);
    assert_eq!(p.offspring, vec![5, 2, 0]);
    assert_eq!(p.top_up, 1);
    let total: usize = p.elites.iter().sum::<usize>() + p.offspring.iter().sum::<usize>() + p.top_up;
    assert_eq!(total, 10);
}

#[test]
fn plan_cuts_at_the_cap() {
    let p = plan_generation(6, &vec![3, 3], 1, &vec![4, 4]);
    assert_eq!(p.elites, vec![1, 1]);
    assert_eq!(p.offspring, vec![4, 0]);
    assert_eq!(p.top_up, 0);
}

#[test]
fn even_share_rounds_down() {
    assert_eq!(even_share(150, 4), 37);
}

#[test]
fn cull_keeps_the_upper_half() {
    assert_eq!(cull_count(5), 3);
    assert_eq!(cull_count(4), 2);
    assert_eq!(cull_count(0), 0);
    assert_eq!(cull_count(1), 1);
}

#[test]
fn offspring_join_the_first_compatible_species() {
    let reps: Vec<i32> = vec![0, 10];
    let offspring: Vec<i32> = vec![11, 1, 30, 31, 2, 50];
    let within = |a: &i32, b: &i32| (a - b).abs() < 3;
    let p = place_offspring(&reps, &offspring, &within);
    // 30 founds species 2, 50 founds species 3; 31 joins 30
    assert_eq!(p.species, vec![1, 0, 2, 2, 0, 3]);
    assert_eq!(p.founders, vec![2, 5]);
}

#[test]
fn first_of_several_compatible_species_wins() {
    let reps: Vec<i32> = vec![0, 1, 2];
    let offspring: Vec<i32> = vec![1];
    let within = |a: &i32, b: &i32| (a - b).abs() < 3;
    let p = place_offspring(&reps, &offspring, &within);
    assert_eq!(p.species, vec![0]);
    assert!(p.founders.is_empty());
}

#[test]
fn without_species_every_brood_founds_one() {
    let reps: Vec<i32> = vec![];
    let offspring: Vec<i32> = vec![5, 6];
    let within = |a: &i32, b: &i32| (a - b).abs() < 3;
    let p = place_offspring(&reps, &offspring, &within);
    assert_eq!(p.species, vec![0, 0]);
    assert_eq!(p.founders, vec![0]);
    let none = place_offspring(&reps, &Vec::<i32>::new(), &within);
    assert!(none.species.is_empty() && none.founders.is_empty());
}
